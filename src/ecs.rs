use std::collections::HashMap;
use vstd::prelude::*;
use vstd::std_specs::hash::group_hash_axioms;

use crate::archetype::{
    lemma_index_of_distinct, Archetype, ArchetypeEdge, ArchetypeId, ComponentId, EntityId,
};
use crate::error::EcsError;
use crate::signature::{
    canonical,
    insert_sorted,
    is_canonical,
    lemma_canonical_distinct,
    lemma_canonical_unique,
    remove_sorted,
    same_signature,
};

verus! {

broadcast use group_hash_axioms;

/// Where an entity's components are stored: its archetype and its row there.
#[derive(Clone, Copy, Debug, PartialEq, Eq)]
pub struct Record {
    pub archetype: ArchetypeId,
    pub row: usize,
}

/// The world: every archetype, the entity index, and the size of each component kind.
///
/// Archetypes are created on demand and never removed; an archetype's id is its index.
/// Each archetype's signature is canonical, and no two archetypes share one, so an
/// entity's archetype is fixed by the set of kinds it holds.
pub struct ECS {
    archetypes: Vec<Archetype>,
    entity_index: HashMap<EntityId, Record>,
    component_size_index: HashMap<ComponentId, usize>,
    next_entity_id: EntityId,
}

impl ECS {
    /// The number of archetypes created so far.
    pub closed spec fn archetype_count(&self) -> nat {
        self.archetypes@.len()
    }

    /// The archetype with id `a`.
    pub closed spec fn archetype(&self, a: int) -> Archetype {
        self.archetypes@[a]
    }

    /// The entities created so far.
    pub closed spec fn entity_ids(&self) -> Set<EntityId> {
        self.entity_index@.dom()
    }

    /// Where entity `e` is stored.
    pub closed spec fn location(&self, e: EntityId) -> Record {
        self.entity_index@[e]
    }

    /// The registered byte size of each component kind.
    pub closed spec fn sizes(&self) -> Map<ComponentId, usize> {
        self.component_size_index@
    }

    /// The id the next created entity receives.
    pub closed spec fn next_entity(&self) -> nat {
        self.next_entity_id as nat
    }

    /// The signature of archetype `a`.
    pub open spec fn signature(&self, a: int) -> Seq<ComponentId> {
        self.archetype(a).signature()
    }

    /// The archetype that holds entity `e`.
    pub open spec fn archetype_of(&self, e: EntityId) -> ArchetypeId {
        self.location(e).archetype
    }

    /// The components of entity `e`, keyed by kind.
    pub open spec fn components(&self, e: EntityId) -> Map<ComponentId, Seq<u8>> {
        self.archetype(self.location(e).archetype as int).row_map(self.location(e).row as int)
    }

    /// Whether some archetype has exactly the kinds of `s`.
    pub open spec fn has_signature(&self, s: Set<ComponentId>) -> bool {
        exists|a: int| 0 <= a < self.archetype_count() && #[trigger] self.signature(a).to_set() == s
    }

    spec fn archetypes_wf(&self) -> bool {
        forall|a: int|
            0 <= a < self.archetypes@.len() ==> {
                let arch = #[trigger] self.archetypes@[a];
                &&& arch.wf()
                &&& arch.ident() == a
                &&& is_canonical(arch.signature())
                &&& forall|c: int|
                    0 <= c < arch.signature().len() ==> self.component_size_index@.contains_key(
                        #[trigger] arch.signature()[c],
                    ) && arch.column_sizes()[c] == self.component_size_index@[arch.signature()[c]]
            }
    }

    spec fn signatures_distinct(&self) -> bool {
        forall|a: int, b: int|
            0 <= a < self.archetypes@.len() && 0 <= b < self.archetypes@.len() && a != b ==> (
            #[trigger] self.archetypes@[a]).signature() != (#[trigger] self.archetypes@[b]).signature()
    }

    spec fn index_wf(&self) -> bool {
        &&& forall|e: EntityId| #[trigger]
            self.entity_index@.contains_key(e) <==> e < self.next_entity_id
        &&& forall|e: EntityId| #[trigger]
            self.entity_index@.contains_key(e) ==> {
                let rec = self.entity_index@[e];
                &&& rec.archetype < self.archetypes@.len()
                &&& rec.row < self.archetypes@[rec.archetype as int].entities().len()
                &&& self.archetypes@[rec.archetype as int].entities()[rec.row as int] == e
            }
        &&& forall|a: int, r: int|
            0 <= a < self.archetypes@.len() && 0 <= r < self.archetypes@[a].entities().len() ==> {
                let e = #[trigger] self.archetypes@[a].entities()[r];
                &&& self.entity_index@.contains_key(e)
                &&& self.entity_index@[e] == Record { archetype: a as usize, row: r as usize }
            }
    }

    spec fn edges_wf(&self) -> bool {
        forall|a: int, k: ComponentId|
            0 <= a < self.archetypes@.len() && #[trigger] self.archetypes@[a].edge_map().contains_key(
                k,
            ) ==> {
                let edge = self.archetypes@[a].edge_map()[k];
                let set = self.archetypes@[a].signature().to_set();
                &&& edge.add is Some ==> {
                    &&& edge.add->0 < self.archetypes@.len()
                    &&& !set.contains(k)
                    &&& self.archetypes@[edge.add->0 as int].signature().to_set() == set.insert(k)
                }
                &&& edge.remove is Some ==> {
                    &&& edge.remove->0 < self.archetypes@.len()
                    &&& set.contains(k)
                    &&& self.archetypes@[edge.remove->0 as int].signature().to_set() == set.remove(
                        k,
                    )
                }
            }
    }

    /// Well-formedness: archetypes are well formed, canonical, distinct and sized by the
    /// registry; the entity index and the archetypes' rows agree; every cached edge leads
    /// to the archetype with one kind more or one kind less.
    pub closed spec fn wf(&self) -> bool {
        &&& self.archetypes_wf()
        &&& self.signatures_distinct()
        &&& self.index_wf()
        &&& self.edges_wf()
    }

    /// The facts of `wf` that callers reason with.
    pub proof fn lemma_wf(&self)
        requires
            self.wf(),
        ensures
            forall|e: EntityId| #[trigger]
                self.entity_ids().contains(e) <==> e < self.next_entity(),
            forall|e: EntityId| #[trigger]
                self.entity_ids().contains(e) ==> self.archetype_of(e) < self.archetype_count()
                    && self.signature(self.archetype_of(e) as int).to_set() == self.components(
                    e,
                ).dom(),
            forall|a: int, b: int|
                0 <= a < self.archetype_count() && 0 <= b < self.archetype_count()
                    && #[trigger] self.signature(a).to_set() == #[trigger] self.signature(
                    b,
                ).to_set() ==> a == b,
            forall|e: EntityId| #[trigger]
                self.entity_ids().contains(e) ==> self.location(e).row < self.archetype(
                    self.archetype_of(e) as int,
                ).entities().len() && self.archetype(self.archetype_of(e) as int).entities()[self.location(
                    e,
                ).row as int] == e,
            forall|a: int, r: int|
                0 <= a < self.archetype_count() && 0 <= r < self.archetype(a).entities().len() ==> {
                    let e = #[trigger] self.archetype(a).entities()[r];
                    &&& self.entity_ids().contains(e)
                    &&& self.location(e) == Record { archetype: a as usize, row: r as usize }
                },
            forall|a: int|
                0 <= a < self.archetype_count() ==> (#[trigger] self.archetype(a)).wf()
                    && self.archetype(a).ident() == a && is_canonical(self.archetype(a).signature()),
            forall|a: int, c: int|
                0 <= a < self.archetype_count() && 0 <= c < self.signature(a).len() ==> {
                    let k = #[trigger] self.signature(a)[c];
                    &&& self.sizes().contains_key(k)
                    &&& self.archetype(a).column_sizes()[c] == self.sizes()[k]
                },
            forall|a: int, k: ComponentId|
                0 <= a < self.archetype_count() && #[trigger] self.archetype(a).add_edge(k) is Some
                    ==> {
                    let t = self.archetype(a).add_edge(k)->0;
                    &&& t < self.archetype_count()
                    &&& !self.signature(a).contains(k)
                    &&& self.signature(t as int).to_set() == self.signature(a).to_set().insert(k)
                },
            forall|a: int, k: ComponentId|
                0 <= a < self.archetype_count() && #[trigger] self.archetype(a).remove_edge(k) is Some
                    ==> {
                    let t = self.archetype(a).remove_edge(k)->0;
                    &&& t < self.archetype_count()
                    &&& self.signature(a).contains(k)
                    &&& self.signature(t as int).to_set() == self.signature(a).to_set().remove(k)
                },
    {
        assert forall|a: int| 0 <= a < self.archetype_count() implies (#[trigger] self.archetype(
            a,
        )).wf() && self.archetype(a).ident() == a && is_canonical(self.archetype(a).signature()) by {
            assert(self.archetypes@[a].wf());
        }
        assert forall|a: int, c: int|
            0 <= a < self.archetype_count() && 0 <= c < self.signature(a).len() implies {
            let k = #[trigger] self.signature(a)[c];
            &&& self.sizes().contains_key(k)
            &&& self.archetype(a).column_sizes()[c] == self.sizes()[k]
        } by {
            assert(self.archetypes@[a].wf());
        }
        assert forall|a: int, k: ComponentId|
            0 <= a < self.archetype_count() && #[trigger] self.archetype(a).add_edge(k) is Some implies {
            let t = self.archetype(a).add_edge(k)->0;
            &&& t < self.archetype_count()
            &&& !self.signature(a).contains(k)
            &&& self.signature(t as int).to_set() == self.signature(a).to_set().insert(k)
        } by {
            assert(self.archetypes@[a].edge_map().contains_key(k));
            assert(self.signature(a).to_set().contains(k) == self.signature(a).contains(k));
        }
        assert forall|a: int, k: ComponentId|
            0 <= a < self.archetype_count() && #[trigger] self.archetype(a).remove_edge(k) is Some implies {
            let t = self.archetype(a).remove_edge(k)->0;
            &&& t < self.archetype_count()
            &&& self.signature(a).contains(k)
            &&& self.signature(t as int).to_set() == self.signature(a).to_set().remove(k)
        } by {
            assert(self.archetypes@[a].edge_map().contains_key(k));
            assert(self.signature(a).to_set().contains(k) == self.signature(a).contains(k));
        }
        assert forall|e: EntityId| #[trigger] self.entity_ids().contains(e) implies self.signature(
            self.archetype_of(e) as int,
        ).to_set() == self.components(e).dom() by {
            assert(self.signature(self.archetype_of(e) as int).to_set() =~= self.components(
                e,
            ).dom());
        }
        assert forall|a: int, b: int|
            0 <= a < self.archetype_count() && 0 <= b < self.archetype_count()
                && #[trigger] self.signature(a).to_set() == #[trigger] self.signature(
                b,
            ).to_set() implies a == b by {
            assert(self.archetypes@[a].wf());
            assert(self.archetypes@[b].wf());
            lemma_canonical_unique(self.signature(a), self.signature(b));
        }
    }

    /// An empty world.
    pub fn new() -> (r: Self)
        ensures
            r.wf(),
            r.archetype_count() == 0,
            r.entity_ids() == Set::<EntityId>::empty(),
            r.sizes() == Map::<ComponentId, usize>::empty(),
            r.next_entity() == 0,
    {
        let r = Self {
            archetypes: Vec::new(),
            entity_index: HashMap::new(),
            component_size_index: HashMap::new(),
            next_entity_id: 0,
        };
        proof {
            assert(r.entity_ids() =~= Set::<EntityId>::empty());
        }
        r
    }

    /// The registered byte size of `kind`, if any.
    pub fn component_size(&self, kind: ComponentId) -> (r: Option<usize>)
        ensures
            r is Some <==> self.sizes().contains_key(kind),
            r is Some ==> r->0 == self.sizes()[kind],
    {
        match self.component_size_index.get(&kind) {
            Some(s) => Some(*s),
            None => None,
        }
    }

    /// Records that `kind` has `size` bytes. Registering a kind again with the same size
    /// changes nothing; with another size it fails, since two types would then share an id.
    pub fn register_component(&mut self, kind: ComponentId, size: usize) -> (r: Result<
        (),
        EcsError,
    >)
        requires
            old(self).wf(),
        ensures
            final(self).wf(),
            old(self).sizes().contains_key(kind) && old(self).sizes()[kind] != size ==> r == Err::<
                (),
                EcsError,
            >(EcsError::SizeMismatch) && *final(self) == *old(self),
            !(old(self).sizes().contains_key(kind) && old(self).sizes()[kind] != size) ==> r
                == Ok::<(), EcsError>(()) && final(self).sizes() == old(self).sizes().insert(
                kind,
                size,
            ) && Self::same_entities(*old(self), *final(self)),
    {
        match self.component_size_index.get(&kind) {
            Some(s) => {
                if *s != size {
                    return Err(EcsError::SizeMismatch);
                }
                proof {
                    assert(self.sizes().insert(kind, size) =~= self.sizes());
                }
                Ok(())
            },
            None => {
                self.component_size_index.insert(kind, size);
                proof {
                    assert forall|a: int| 0 <= a < self.archetypes@.len() implies {
                        let arch = #[trigger] self.archetypes@[a];
                        forall|c: int|
                            0 <= c < arch.signature().len()
                                ==> self.component_size_index@.contains_key(
                                #[trigger] arch.signature()[c],
                            ) && arch.column_sizes()[c]
                                == self.component_size_index@[arch.signature()[c]]
                    } by {
                        let arch = self.archetypes@[a];
                        assert forall|c: int| 0 <= c < arch.signature().len() implies arch.signature()[c]
                            != kind by {}
                    }
                }
                Ok(())
            },
        }
    }

    /// The archetypes, the entity index and the entity counter are the same in both.
    pub open spec fn same_entities(old: Self, new: Self) -> bool {
        &&& new.archetype_count() == old.archetype_count()
        &&& forall|a: int| 0 <= a < old.archetype_count() ==> new.archetype(a) == old.archetype(a)
        &&& new.entity_ids() == old.entity_ids()
        &&& forall|e: EntityId| #[trigger] new.location(e) == old.location(e)
        &&& new.next_entity() == old.next_entity()
    }
    /// An archetype without entities whose columns have nothing allocated.
    pub open spec fn fresh(a: Archetype) -> bool {
        &&& a.entities().len() == 0
        &&& forall|c: int|
            0 <= c < a.column_capacities().len() ==> #[trigger] a.column_capacities()[c] == 0
    }

    /// Whether moving a row into the archetype of the kinds `set` must fail to allocate:
    /// that archetype exists and one more row does not fit it, or it does not exist and
    /// one of the kinds has a size, in `sizes`, beyond `isize::MAX`.
    pub open spec fn blocked(old: Self, sizes: Map<ComponentId, usize>, set: Set<ComponentId>) -> bool {
        ||| exists|a: int|
            0 <= a < old.archetype_count() && #[trigger] old.signature(a).to_set() == set
                && !old.archetype(a).row_fits()
        ||| !old.has_signature(set) && exists|k: ComponentId|
            set.contains(k) && #[trigger] sizes[k] > isize::MAX
    }

    /// `new` has the archetypes of `old`, maybe followed by one fresh archetype, and the
    /// same entities, locations and sizes.
    pub open spec fn extends(old: Self, new: Self) -> bool {
        &&& old.archetype_count() <= new.archetype_count() <= old.archetype_count() + 1
        &&& forall|a: int| 0 <= a < old.archetype_count() ==> new.archetype(a) == old.archetype(a)
        &&& forall|a: int|
            old.archetype_count() <= a < new.archetype_count() ==> Self::fresh(
                #[trigger] new.archetype(a),
            ) && new.archetype(a).edge_map() == Map::<ComponentId, ArchetypeEdge>::empty()
                && new.archetype(a).column_sizes() == Seq::new(
                new.signature(a).len(),
                |c: int| new.sizes()[new.signature(a)[c]] as nat,
            )
        &&& new.entity_ids() == old.entity_ids()
        &&& forall|e: EntityId| #[trigger] new.location(e) == old.location(e)
        &&& new.next_entity() == old.next_entity()
        &&& new.sizes() == old.sizes()
    }

    /// The archetype whose signature is the canonical `sig`, created empty where none
    /// exists yet.
    fn get_or_create_canonical(&mut self, sig: Vec<ComponentId>) -> (r: ArchetypeId)
        requires
            old(self).wf(),
            is_canonical(sig@),
            forall|c: int| 0 <= c < sig@.len() ==> old(self).sizes().contains_key(#[trigger] sig@[c]),
        ensures
            final(self).wf(),
            Self::extends(*old(self), *final(self)),
            old(self).has_signature(sig@.to_set()) ==> final(self).archetype_count()
                == old(self).archetype_count(),
            !old(self).has_signature(sig@.to_set()) ==> final(self).archetype_count()
                == old(self).archetype_count() + 1,
            r < final(self).archetype_count(),
            final(self).signature(r as int) == sig@,
    {
        let mut i: usize = 0;
        while i < self.archetypes.len()
            invariant
                self.wf(),
                *self == *old(self),
                i <= self.archetypes@.len(),
                forall|j: int| 0 <= j < i ==> (#[trigger] self.archetypes@[j]).signature() != sig@,
            decreases self.archetypes@.len() - i,
        {
            if same_signature(self.archetypes[i].types(), sig.as_slice()) {
                proof {
                    assert(self.signature(i as int).to_set() == sig@.to_set());
                }
                return i;
            }
            i = i + 1;
        }
        proof {
            if self.has_signature(sig@.to_set()) {
                let a = choose|a: int|
                    0 <= a < self.archetype_count() && #[trigger] self.signature(a).to_set()
                        == sig@.to_set();
                assert(self.archetypes@[a].wf());
                lemma_canonical_unique(self.signature(a), sig@);
            }
        }
        let mut sizes: Vec<usize> = Vec::new();
        let mut c: usize = 0;
        while c < sig.len()
            invariant
                self.wf(),
                *self == *old(self),
                c <= sig@.len(),
                sizes@.len() == c,
                forall|j: int| 0 <= j < sig@.len() ==> self.sizes().contains_key(#[trigger] sig@[j]),
                forall|j: int| 0 <= j < c ==> #[trigger] sizes@[j] == self.sizes()[sig@[j]],
            decreases sig@.len() - c,
        {
            let size: usize = match self.component_size_index.get(&sig[c]) {
                Some(s) => *s,
                None => 0,
            };
            sizes.push(size);
            c = c + 1;
        }
        let id = self.archetypes.len();
        proof {
            lemma_canonical_distinct(sig@);
        }
        let ghost old_archetypes = self.archetypes@;
        let archetype = Archetype::new(id, sig, sizes.as_slice());
        self.archetypes.push(archetype);
        proof {
            assert(self.archetypes@ == old_archetypes.push(archetype));
            assert(Self::fresh(archetype));
            assert(archetype.column_sizes() =~= Seq::new(
                self.signature(id as int).len(),
                |c: int| self.sizes()[self.signature(id as int)[c]] as nat,
            ));
            assert forall|a: int| 0 <= a < old_archetypes.len() implies self.archetype(a)
                == old(self).archetype(a) by {}
            assert(self.archetypes@[id as int] == archetype);
            assert forall|a: int| 0 <= a < self.archetypes@.len() implies {
                let arch = #[trigger] self.archetypes@[a];
                &&& arch.wf()
                &&& arch.ident() == a
                &&& is_canonical(arch.signature())
                &&& forall|c: int|
                    0 <= c < arch.signature().len() ==> self.component_size_index@.contains_key(
                        #[trigger] arch.signature()[c],
                    ) && arch.column_sizes()[c] == self.component_size_index@[arch.signature()[c]]
            } by {
                if a < id {
                    assert(self.archetypes@[a] == old_archetypes[a]);
                    assert(old(self).archetypes@[a] == old_archetypes[a]);
                }
            }
            assert forall|a: int, b: int|
                0 <= a < self.archetypes@.len() && 0 <= b < self.archetypes@.len() && a != b
                implies (#[trigger] self.archetypes@[a]).signature() != (
            #[trigger] self.archetypes@[b]).signature() by {
                if a < id && b < id {
                    assert(old(self).archetypes@[a] == self.archetypes@[a]);
                    assert(old(self).archetypes@[b] == self.archetypes@[b]);
                } else if a == id {
                    assert(old(self).archetypes@[b] == self.archetypes@[b]);
                } else {
                    assert(old(self).archetypes@[a] == self.archetypes@[a]);
                }
            }
            assert forall|a: int, r: int|
                0 <= a < self.archetypes@.len() && 0 <= r < self.archetypes@[a].entities().len()
                implies {
                let e = #[trigger] self.archetypes@[a].entities()[r];
                &&& self.entity_index@.contains_key(e)
                &&& self.entity_index@[e] == Record { archetype: a as usize, row: r as usize }
            } by {
                assert(a < id);
                assert(old(self).archetypes@[a] == self.archetypes@[a]);
            }
            assert forall|e: EntityId| #[trigger] self.entity_index@.contains_key(e) implies {
                let rec = self.entity_index@[e];
                &&& rec.archetype < self.archetypes@.len()
                &&& rec.row < self.archetypes@[rec.archetype as int].entities().len()
                &&& self.archetypes@[rec.archetype as int].entities()[rec.row as int] == e
            } by {
                let rec = self.entity_index@[e];
                assert(old(self).archetypes@[rec.archetype as int] == self.archetypes@[rec.archetype as int]);
            }
            assert forall|a: int, k: ComponentId|
                0 <= a < self.archetypes@.len() && #[trigger] self.archetypes@[a].edge_map().contains_key(
                    k,
                ) implies {
                let edge = self.archetypes@[a].edge_map()[k];
                let set = self.archetypes@[a].signature().to_set();
                &&& edge.add is Some ==> {
                    &&& edge.add->0 < self.archetypes@.len()
                    &&& !set.contains(k)
                    &&& self.archetypes@[edge.add->0 as int].signature().to_set() == set.insert(k)
                }
                &&& edge.remove is Some ==> {
                    &&& edge.remove->0 < self.archetypes@.len()
                    &&& set.contains(k)
                    &&& self.archetypes@[edge.remove->0 as int].signature().to_set() == set.remove(
                        k,
                    )
                }
            } by {
                assert(a < id);
                assert(old(self).archetypes@[a] == self.archetypes@[a]);
                let edge = self.archetypes@[a].edge_map()[k];
                if edge.add is Some {
                    assert(old(self).archetypes@[edge.add->0 as int] == self.archetypes@[edge.add->0 as int]);
                }
                if edge.remove is Some {
                    assert(old(self).archetypes@[edge.remove->0 as int] == self.archetypes@[edge.remove->0 as int]);
                }
            }
        }
        id
    }

    /// `new` is `old` after looking up the archetype of the kinds `set`, which is `id`: it
    /// existed already and nothing was added, or it is a new archetype at the end.
    pub open spec fn resolved(old: Self, new: Self, set: Set<ComponentId>, id: ArchetypeId) -> bool {
        &&& Self::extends(old, new)
        &&& id < new.archetype_count()
        &&& new.signature(id as int).to_set() == set
        &&& old.has_signature(set) ==> new.archetype_count() == old.archetype_count()
        &&& !old.has_signature(set) ==> new.archetype_count() == old.archetype_count() + 1
    }

    /// The id of the archetype whose kinds are those of `signature`, in any order and with
    /// any repetition, created empty where none exists yet. Every kind must have a
    /// registered size, which the new archetype's columns take.
    pub fn get_or_create_archetype(&mut self, signature: &[ComponentId]) -> (r: ArchetypeId)
        requires
            old(self).wf(),
            forall|c: int|
                0 <= c < signature@.len() ==> old(self).sizes().contains_key(
                    #[trigger] signature@[c],
                ),
        ensures
            final(self).wf(),
            Self::resolved(*old(self), *final(self), signature@.to_set(), r),
    {
        let sig = canonical(signature);
        proof {
            assert forall|j: int| 0 <= j < sig@.len() implies self.sizes().contains_key(
                #[trigger] sig@[j],
            ) by {
                assert(sig@.to_set().contains(sig@[j]));
                assert(signature@.to_set().contains(sig@[j]));
            }
        }
        self.get_or_create_canonical(sig)
    }

    /// Every entity of `old` other than `e` keeps its archetype and its components, every
    /// archetype of `old` keeps its signature, and at most one archetype was added.
    pub open spec fn others_kept(old: Self, new: Self, e: EntityId) -> bool {
        &&& old.archetype_count() <= new.archetype_count() <= old.archetype_count() + 1
        &&& forall|a: int| 0 <= a < old.archetype_count() ==> #[trigger] new.signature(a) == old.signature(a)
        &&& forall|x: EntityId|
            old.entity_ids().contains(x) && x != e ==> #[trigger] new.archetype_of(x)
                == old.archetype_of(x) && new.components(x) == old.components(x)
    }

    /// Creates an entity without components, in the archetype of the empty signature, and
    /// returns its id.
    pub fn create_entity(&mut self) -> (r: EntityId)
        requires
            old(self).wf(),
            old(self).next_entity() < usize::MAX,
        ensures
            final(self).wf(),
            r == old(self).next_entity(),
            final(self).next_entity() == old(self).next_entity() + 1,
            final(self).entity_ids() == old(self).entity_ids().insert(r),
            final(self).components(r) == Map::<ComponentId, Seq<u8>>::empty(),
            final(self).archetype_of(r) < final(self).archetype_count(),
            final(self).signature(final(self).archetype_of(r) as int) == Seq::<
                ComponentId,
            >::empty(),
            final(self).sizes() == old(self).sizes(),
            Self::others_kept(*old(self), *final(self), r),
            old(self).has_signature(Set::<ComponentId>::empty()) ==> final(self).archetype_count()
                == old(self).archetype_count(),
            final(self).location(r).row < final(self).archetype(
                final(self).archetype_of(r) as int,
            ).entities().len(),
            final(self).archetype(final(self).archetype_of(r) as int).entities()[final(self).location(
                r,
            ).row as int] == r,
            forall|x: EntityId| #[trigger]
                old(self).entity_ids().contains(x) ==> final(self).location(x) == old(self).location(
                    x,
                ),
            forall|a: int|
                0 <= a < old(self).archetype_count() ==> #[trigger] final(self).archetype(
                    a,
                ).edge_map() == old(self).archetype(a).edge_map(),
    {
        let ghost w0 = *self;
        let empty: Vec<ComponentId> = Vec::new();
        proof {
            assert(empty@.to_set() =~= Set::<ComponentId>::empty());
        }
        let t = self.get_or_create_canonical(empty);
        let id = self.next_entity_id;
        assert(self.archetypes@[t as int].wf());
        let row = self.archetypes[t].len();
        proof {
            if self.archetypes@[t as int].entities().contains(id) {
                let q = choose|q: int|
                    0 <= q < self.archetypes@[t as int].entities().len()
                        && self.archetypes@[t as int].entities()[q] == id;
                assert(self.entity_index@.contains_key(self.archetypes@[t as int].entities()[q]));
            }
        }
        let parts: Vec<&[u8]> = Vec::new();
        let ghost w1 = *self;
        let ghost arch0 = self.archetypes@[t as int];
        let _ = self.archetypes[t].add_entity(id, parts.as_slice());
        let ghost arch1 = self.archetypes@[t as int];
        self.entity_index.insert(id, Record { archetype: t, row });
        self.next_entity_id = id + 1;
        proof {
            assert(arch1.entities() == arch0.entities().push(id));
            assert(self.archetypes@ == w1.archetypes@.update(t as int, arch1));
            assert forall|a: int| 0 <= a < self.archetypes@.len() && a != t implies #[trigger]
                self.archetypes@[a] == w1.archetypes@[a] by {}
            // the entity index and the rows agree
            assert forall|e: EntityId| #[trigger] self.entity_index@.contains_key(e) implies {
                let rec = self.entity_index@[e];
                &&& rec.archetype < self.archetypes@.len()
                &&& rec.row < self.archetypes@[rec.archetype as int].entities().len()
                &&& self.archetypes@[rec.archetype as int].entities()[rec.row as int] == e
            } by {
                if e != id {
                    let rec = w1.entity_index@[e];
                    assert(w1.entity_index@.contains_key(e));
                    if rec.archetype == t {
                        assert(arch1.entities()[rec.row as int] == arch0.entities()[rec.row as int]);
                    }
                }
            }
            assert forall|a: int, q: int|
                0 <= a < self.archetypes@.len() && 0 <= q < self.archetypes@[a].entities().len()
                implies {
                let e = #[trigger] self.archetypes@[a].entities()[q];
                &&& self.entity_index@.contains_key(e)
                &&& self.entity_index@[e] == Record { archetype: a as usize, row: q as usize }
            } by {
                if a == t && q == row {
                } else {
                    let e = self.archetypes@[a].entities()[q];
                    if a == t {
                        assert(arch1.entities()[q] == arch0.entities()[q]);
                    }
                    assert(w1.archetypes@[a].entities()[q] == e);
                    assert(w1.entity_index@.contains_key(e));
                    assert(e < id);
                }
            }
            assert forall|e: EntityId| #[trigger] self.entity_index@.contains_key(e) <==> e
                < self.next_entity_id by {}
            // archetypes stay well formed and sized by the registry
            assert forall|a: int| 0 <= a < self.archetypes@.len() implies {
                let arch = #[trigger] self.archetypes@[a];
                &&& arch.wf()
                &&& arch.ident() == a
                &&& is_canonical(arch.signature())
                &&& forall|c: int|
                    0 <= c < arch.signature().len() ==> self.component_size_index@.contains_key(
                        #[trigger] arch.signature()[c],
                    ) && arch.column_sizes()[c] == self.component_size_index@[arch.signature()[c]]
            } by {
                assert(w1.archetypes@[a].wf());
            }
            assert forall|a: int, b: int|
                0 <= a < self.archetypes@.len() && 0 <= b < self.archetypes@.len() && a != b
                implies (#[trigger] self.archetypes@[a]).signature() != (
            #[trigger] self.archetypes@[b]).signature() by {
                assert(w1.archetypes@[a].signature() == self.archetypes@[a].signature());
                assert(w1.archetypes@[b].signature() == self.archetypes@[b].signature());
            }
            assert forall|a: int, k: ComponentId|
                0 <= a < self.archetypes@.len() && #[trigger] self.archetypes@[a].edge_map().contains_key(
                    k,
                ) implies {
                let edge = self.archetypes@[a].edge_map()[k];
                let set = self.archetypes@[a].signature().to_set();
                &&& edge.add is Some ==> {
                    &&& edge.add->0 < self.archetypes@.len()
                    &&& !set.contains(k)
                    &&& self.archetypes@[edge.add->0 as int].signature().to_set() == set.insert(k)
                }
                &&& edge.remove is Some ==> {
                    &&& edge.remove->0 < self.archetypes@.len()
                    &&& set.contains(k)
                    &&& self.archetypes@[edge.remove->0 as int].signature().to_set() == set.remove(
                        k,
                    )
                }
            } by {
                assert(w1.archetypes@[a].edge_map() == self.archetypes@[a].edge_map());
                assert(w1.archetypes@[a].edge_map().contains_key(k));
                let edge = self.archetypes@[a].edge_map()[k];
                if edge.add is Some {
                    assert(w1.archetypes@[edge.add->0 as int].signature() == self.archetypes@[edge.add->0 as int].signature());
                }
                if edge.remove is Some {
                    assert(w1.archetypes@[edge.remove->0 as int].signature() == self.archetypes@[edge.remove->0 as int].signature());
                }
            }
            // what callers see
            assert(self.components(id) =~= Map::<ComponentId, Seq<u8>>::empty());
            assert(self.entity_ids() =~= w0.entity_ids().insert(id));
            assert forall|x: EntityId|
                w0.entity_ids().contains(x) && x != id implies #[trigger] self.archetype_of(x)
                    == w0.archetype_of(x) && self.components(x) == w0.components(x) by {
                let rec = w1.entity_index@[x];
                assert(w1.location(x) == w0.location(x));
                assert(w1.entity_index@.contains_key(x));
                if rec.archetype == t {
                    Archetype::lemma_row_map_after_push(arch0, arch1, rec.row as int);
                } else {
                    assert(self.archetypes@[rec.archetype as int] == w1.archetypes@[rec.archetype as int]);
                }
            }
            assert forall|a: int| 0 <= a < w0.archetype_count() implies #[trigger] self.signature(a)
                == w0.signature(a) by {
                assert(w1.archetype(a) == w0.archetype(a));
            }
            assert forall|x: EntityId| #[trigger] w0.entity_ids().contains(x) implies self.location(x)
                == w0.location(x) by {
                assert(w0.entity_index@.contains_key(x));
                assert(x != id);
                assert(w1.location(x) == w0.location(x));
            }
            assert forall|a: int| 0 <= a < w0.archetype_count() implies #[trigger] self.archetype(
                a,
            ).edge_map() == w0.archetype(a).edge_map() by {
                assert(w1.archetype(a) == w0.archetype(a));
                assert(self.archetypes@[a].edge_map() == w1.archetypes@[a].edge_map());
            }
        }
        id
    }
    /// `new` stores the same entities and components as `old`, in the same places; only
    /// edges may differ, and at most one archetype without entities may have been added.
    pub open spec fn same_storage(old: Self, new: Self) -> bool {
        &&& old.archetype_count() <= new.archetype_count() <= old.archetype_count() + 1
        &&& forall|a: int|
            0 <= a < old.archetype_count() ==> {
                let x = #[trigger] new.archetype(a);
                let y = old.archetype(a);
                &&& x.ident() == y.ident()
                &&& x.signature() == y.signature()
                &&& x.entities() == y.entities()
                &&& x.columns() == y.columns()
                &&& x.column_sizes() == y.column_sizes()
                &&& x.column_capacities() == y.column_capacities()
            }
        &&& forall|a: int|
            old.archetype_count() <= a < new.archetype_count() ==> Self::fresh(
                #[trigger] new.archetype(a),
            )
        &&& new.entity_ids() == old.entity_ids()
        &&& forall|e: EntityId| #[trigger] new.location(e) == old.location(e)
        &&& new.next_entity() == old.next_entity()
        &&& new.sizes() == old.sizes()
    }

    /// The kinds of a neighbour of an archetype with kinds `set`: with `kind` added where
    /// `adding`, with `kind` removed otherwise.
    pub open spec fn neighbour(set: Set<ComponentId>, kind: ComponentId, adding: bool) -> Set<
        ComponentId,
    > {
        if adding {
            set.insert(kind)
        } else {
            set.remove(kind)
        }
    }

    /// The archetype reached from `source` by adding `kind` (where `adding`) or removing it:
    /// taken from the edge cache, or found or created by signature, with the edge then
    /// cached in both directions.
    fn resolve_target(&mut self, source: ArchetypeId, kind: ComponentId, adding: bool) -> (r:
        ArchetypeId)
        requires
            old(self).wf(),
            source < old(self).archetype_count(),
            old(self).signature(source as int).contains(kind) == !adding,
            adding ==> old(self).sizes().contains_key(kind),
        ensures
            final(self).wf(),
            Self::same_storage(*old(self), *final(self)),
            r < final(self).archetype_count(),
            r != source,
            final(self).signature(r as int).to_set() == Self::neighbour(
                old(self).signature(source as int).to_set(),
                kind,
                adding,
            ),
            old(self).has_signature(
                Self::neighbour(old(self).signature(source as int).to_set(), kind, adding),
            ) ==> final(self).archetype_count() == old(self).archetype_count(),
            adding ==> final(self).archetype(source as int).add_edge(kind) == Some(r)
                && final(self).archetype(r as int).remove_edge(kind) == Some(source),
            !adding ==> final(self).archetype(source as int).remove_edge(kind) == Some(r)
                && final(self).archetype(r as int).add_edge(kind) == Some(source),
    {
        let ghost w0 = *self;
        let ghost src_set = w0.signature(source as int).to_set();
        assert(self.archetypes@[source as int].wf());
        proof {
            assert(src_set.contains(kind) == !adding);
        }
        let mut found: Option<ArchetypeId> = None;
        match self.archetypes[source].edge(kind) {
            Some(edge) => {
                found = if adding {
                    edge.add
                } else {
                    edge.remove
                };
            },
            None => {},
        }
        let t = match found {
            Some(t) => {
                proof {
                    assert(self.archetypes@[source as int].edge_map().contains_key(kind));
                    assert(self.archetypes@[t as int].signature().to_set().contains(kind) == adding);
                    assert(Self::extends(w0, *self));
                }
                t
            },
            None => {
                let sig = if adding {
                    insert_sorted(self.archetypes[source].types(), kind)
                } else {
                    remove_sorted(self.archetypes[source].types(), kind)
                };
                proof {
                    assert forall|c: int| 0 <= c < sig@.len() implies self.sizes().contains_key(
                        #[trigger] sig@[c],
                    ) by {
                        assert(sig@.to_set().contains(sig@[c]));
                        if sig@[c] != kind {
                            let arch = self.archetypes@[source as int];
                            assert(arch.signature().to_set().contains(sig@[c]));
                            let j = choose|j: int|
                                0 <= j < arch.signature().len() && arch.signature()[j] == sig@[c];
                            assert(self.component_size_index@.contains_key(arch.signature()[j]));
                        }
                    }
                }
                self.get_or_create_canonical(sig)
            },
        };
        let ghost w1 = *self;
        proof {
            assert(Self::extends(w0, w1));
            assert(w1.archetypes@[source as int] == w0.archetypes@[source as int]);
            assert(w1.archetypes@[t as int].signature().to_set() == Self::neighbour(src_set, kind, adding));
            assert(w1.archetypes@[t as int].signature().to_set().contains(kind) == adding);
            assert(w0.has_signature(Self::neighbour(src_set, kind, adding)) ==> w1.archetype_count()
                == w0.archetype_count());
        }
        if adding {
            self.archetypes[t].add_edge_to_old(kind, source);
            self.archetypes[source].add_edge_to_new(kind, t);
        } else {
            self.archetypes[t].add_edge_to_new(kind, source);
            self.archetypes[source].add_edge_to_old(kind, t);
        }
        proof {
            let n = self.archetypes@.len();
            assert forall|a: int|
                0 <= a < n && a != t && a != source implies #[trigger] self.archetypes@[a]
                == w1.archetypes@[a] by {}
            assert forall|a: int| 0 <= a < n implies {
                let x = #[trigger] self.archetypes@[a];
                let y = w1.archetypes@[a];
                &&& x.ident() == y.ident()
                &&& x.signature() == y.signature()
                &&& x.entities() == y.entities()
                &&& x.columns() == y.columns()
                &&& x.column_sizes() == y.column_sizes()
                &&& x.column_capacities() == y.column_capacities()
                &&& x.inv() == y.inv()
            } by {}
            assert forall|a: int| 0 <= a < n implies {
                let arch = #[trigger] self.archetypes@[a];
                &&& arch.wf()
                &&& arch.ident() == a
                &&& is_canonical(arch.signature())
                &&& forall|c: int|
                    0 <= c < arch.signature().len() ==> self.component_size_index@.contains_key(
                        #[trigger] arch.signature()[c],
                    ) && arch.column_sizes()[c] == self.component_size_index@[arch.signature()[c]]
            } by {
                assert(w1.archetypes@[a].wf());
            }
            assert forall|a: int, b: int|
                0 <= a < n && 0 <= b < n && a != b implies (
                #[trigger] self.archetypes@[a]).signature() != (
            #[trigger] self.archetypes@[b]).signature() by {
                assert(w1.archetypes@[a].signature() == self.archetypes@[a].signature());
                assert(w1.archetypes@[b].signature() == self.archetypes@[b].signature());
            }
            assert forall|a: int, q: int|
                0 <= a < n && 0 <= q < self.archetypes@[a].entities().len() implies {
                let e = #[trigger] self.archetypes@[a].entities()[q];
                &&& self.entity_index@.contains_key(e)
                &&& self.entity_index@[e] == Record { archetype: a as usize, row: q as usize }
            } by {
                assert(w1.archetypes@[a].entities() == self.archetypes@[a].entities());
            }
            assert forall|e: EntityId| #[trigger] self.entity_index@.contains_key(e) implies {
                let rec = self.entity_index@[e];
                &&& rec.archetype < self.archetypes@.len()
                &&& rec.row < self.archetypes@[rec.archetype as int].entities().len()
                &&& self.archetypes@[rec.archetype as int].entities()[rec.row as int] == e
            } by {
                let rec = self.entity_index@[e];
                assert(w1.archetypes@[rec.archetype as int].entities() == self.archetypes@[rec.archetype as int].entities());
            }
            assert forall|a: int, k: ComponentId|
                0 <= a < n && #[trigger] self.archetypes@[a].edge_map().contains_key(k) implies {
                let edge = self.archetypes@[a].edge_map()[k];
                let set = self.archetypes@[a].signature().to_set();
                &&& edge.add is Some ==> {
                    &&& edge.add->0 < self.archetypes@.len()
                    &&& !set.contains(k)
                    &&& self.archetypes@[edge.add->0 as int].signature().to_set() == set.insert(k)
                }
                &&& edge.remove is Some ==> {
                    &&& edge.remove->0 < self.archetypes@.len()
                    &&& set.contains(k)
                    &&& self.archetypes@[edge.remove->0 as int].signature().to_set() == set.remove(
                        k,
                    )
                }
            } by {
                let edge = self.archetypes@[a].edge_map()[k];
                let set = self.archetypes@[a].signature().to_set();
                if (a == t || a == source) && k == kind {
                    if adding && a == t {
                        assert(set.remove(kind) =~= src_set);
                    }
                    if !adding && a == t {
                        assert(set.insert(kind) =~= src_set);
                    }
                } else {
                    assert(w1.archetypes@[a].edge_map().contains_key(k));
                    assert(w1.archetypes@[a].edge_map()[k] == edge);
                    if edge.add is Some {
                        assert(w1.archetypes@[edge.add->0 as int].signature() == self.archetypes@[edge.add->0 as int].signature());
                    }
                    if edge.remove is Some {
                        assert(w1.archetypes@[edge.remove->0 as int].signature() == self.archetypes@[edge.remove->0 as int].signature());
                    }
                }
            }
            assert forall|a: int| 0 <= a < w0.archetype_count() implies {
                let x = #[trigger] self.archetype(a);
                let y = w0.archetype(a);
                &&& x.ident() == y.ident()
                &&& x.signature() == y.signature()
                &&& x.entities() == y.entities()
                &&& x.columns() == y.columns()
                &&& x.column_sizes() == y.column_sizes()
                &&& x.column_capacities() == y.column_capacities()
            } by {
                assert(w1.archetype(a) == w0.archetype(a));
                assert(self.archetypes@[a].signature() == w1.archetypes@[a].signature());
            }
            assert forall|a: int| w0.archetype_count() <= a < self.archetype_count() implies Self::fresh(
                #[trigger] self.archetype(a),
            ) by {
                assert(self.archetypes@[a].entities() == w1.archetypes@[a].entities());
                assert(self.archetypes@[a].column_capacities() == w1.archetypes@[a].column_capacities());
                assert(Self::fresh(w1.archetype(a)));
            }
            assert(self.entity_index@ == w1.entity_index@);
            assert forall|e: EntityId| #[trigger] self.location(e) == w0.location(e) by {
                assert(w1.location(e) == w0.location(e));
            }
            assert(self.entity_ids() == w0.entity_ids());
            assert(self.sizes() == w0.sizes());
            assert(self.next_entity() == w0.next_entity());
            assert(self.archetype_count() <= w0.archetype_count() + 1);
        }
        t
    }
    /// The payloads of a row of archetype `t` for an entity in row `row` of `source` that
    /// gains `kind` with `bytes`: in the signature order of `t`, the bytes it held for
    /// each kind of `source`, and `bytes` for `kind`.
    fn row_for(
        &self,
        source: ArchetypeId,
        row: usize,
        t: ArchetypeId,
        kind: ComponentId,
        bytes: &[u8],
    ) -> (r: Vec<Vec<u8>>)
        requires
            self.wf(),
            source < self.archetype_count(),
            t < self.archetype_count(),
            row < self.archetype(source as int).entities().len(),
            forall|c: int|
                0 <= c < self.signature(t as int).len() ==> #[trigger] self.signature(t as int)[c]
                    == kind || self.signature(source as int).contains(self.signature(t as int)[c]),
            self.signature(t as int).contains(kind) ==> self.sizes().contains_key(kind)
                && self.sizes()[kind] == bytes@.len(),
        ensures
            r@.len() == self.signature(t as int).len(),
            forall|c: int|
                0 <= c < r@.len() ==> (#[trigger] r@[c])@.len() == self.sizes()[self.signature(
                    t as int,
                )[c]],
            forall|c: int|
                0 <= c < r@.len() ==> (#[trigger] r@[c])@ == if self.signature(t as int)[c]
                    == kind {
                    bytes@
                } else {
                    self.archetype(source as int).row_map(row as int)[self.signature(
                        t as int,
                    )[c]]
                },
    {
        assert(self.archetypes@[source as int].wf());
        let types = self.archetypes[t].types();
        let n = types.len();
        let mut out: Vec<Vec<u8>> = Vec::new();
        let mut c: usize = 0;
        while c < n
            invariant
                self.wf(),
                source < self.archetype_count(),
                t < self.archetype_count(),
                row < self.archetype(source as int).entities().len(),
                self.archetypes@[source as int].wf(),
                forall|j: int|
                    0 <= j < self.signature(t as int).len() ==> #[trigger] self.signature(
                        t as int,
                    )[j] == kind || self.signature(source as int).contains(
                        self.signature(t as int)[j],
                    ),
                self.signature(t as int).contains(kind) ==> self.sizes().contains_key(kind)
                    && self.sizes()[kind] == bytes@.len(),
                types@ == self.signature(t as int),
                n == types@.len(),
                c <= n,
                out@.len() == c,
                forall|j: int|
                    0 <= j < c ==> (#[trigger] out@[j])@ == if self.signature(t as int)[j]
                        == kind {
                        bytes@
                    } else {
                        self.archetype(source as int).row_map(row as int)[self.signature(
                            t as int,
                        )[j]]
                    },
                forall|j: int|
                    0 <= j < c ==> (#[trigger] out@[j])@.len() == self.sizes()[self.signature(
                        t as int,
                    )[j]],
            decreases n - c,
        {
            let k = types[c];
            proof {
                assert(self.archetypes@[t as int].wf());
                assert(self.sizes().contains_key(self.signature(t as int)[c as int]));
            }
            if k == kind {
                proof {
                    assert(self.signature(t as int).contains(kind));
                }
                out.push(vstd::slice::slice_to_vec(bytes));
            } else {
                proof {
                    assert(self.signature(t as int)[c as int] == k);
                    assert(self.signature(source as int).contains(k));
                    let oc = self.signature(source as int).index_of(k);
                    let sarch = self.archetypes@[source as int];
                    assert(0 <= oc < sarch.signature().len() && sarch.signature()[oc] == k);
                    assert(sarch.columns()[oc][row as int].len() == sarch.column_sizes()[oc]);
                }
                let piece: Vec<u8> = match self.archetypes[source].column_index(k) {
                    Some(oc) => match self.archetypes[source].component(row, oc) {
                        Some(b) => b,
                        None => Vec::new(),
                    },
                    None => Vec::new(),
                };
                out.push(piece);
            }
            c = c + 1;
        }
        out
    }
    /// Moves `entity`, stored at `rec`, to archetype `t`, which has the kinds of its
    /// archetype and `kind`, storing `bytes` for `kind`. The entity in the last row of its
    /// old archetype moves into the vacated row. Fails, changing nothing, where a column of
    /// `t` cannot grow.
    fn migrate(
        &mut self,
        entity: EntityId,
        rec: Record,
        t: ArchetypeId,
        payloads: Vec<Vec<u8>>,
    ) -> (r: Result<(), EcsError>)
        requires
            old(self).wf(),
            old(self).entity_ids().contains(entity),
            old(self).location(entity) == rec,
            t < old(self).archetype_count(),
            t != rec.archetype,
            payloads@.len() == old(self).signature(t as int).len(),
            forall|c: int|
                0 <= c < payloads@.len() ==> (#[trigger] payloads@[c])@.len() == old(
                    self,
                ).sizes()[old(self).signature(t as int)[c]],
        ensures
            final(self).wf(),
            r is Ok || r == Err::<(), EcsError>(EcsError::AllocationFailure),
            r is Err ==> *final(self) == *old(self) && !old(self).archetype(t as int).accepts_row(),
            r is Ok ==> {
                &&& final(self).archetype_count() == old(self).archetype_count()
                &&& final(self).entity_ids() == old(self).entity_ids()
                &&& final(self).next_entity() == old(self).next_entity()
                &&& final(self).sizes() == old(self).sizes()
                &&& final(self).archetype_of(entity) == t
                &&& final(self).location(entity).row == old(self).archetype(t as int).entities().len()
                &&& final(self).archetype(t as int).entities() == old(self).archetype(
                    t as int,
                ).entities().push(entity)
                &&& forall|a: int|
                    0 <= a < old(self).archetype_count() ==> #[trigger] final(self).archetype(
                        a,
                    ).edge_map() == old(self).archetype(a).edge_map()
                &&& final(self).components(entity) == payload_map(
                    old(self).signature(t as int),
                    Seq::new(payloads@.len(), |c: int| payloads@[c]@),
                )
                &&& Self::others_kept(*old(self), *final(self), entity)
            },
    {
        let ghost w0 = *self;
        let src = rec.archetype;
        let row = rec.row;
        let mut parts: Vec<&[u8]> = Vec::new();
        let mut c: usize = 0;
        while c < payloads.len()
            invariant
                c <= payloads@.len(),
                parts@.len() == c,
                forall|j: int| 0 <= j < c ==> (#[trigger] parts@[j])@ == payloads@[j]@,
            decreases payloads@.len() - c,
        {
            parts.push(payloads[c].as_slice());
            c = c + 1;
        }
        let ghost t0 = self.archetypes@[t as int];
        let ghost s0 = self.archetypes@[src as int];
        assert(t0.wf() && s0.wf());
        proof {
            // every part has its column's size
            assert forall|j: int| 0 <= j < t0.column_sizes().len() implies (
            #[trigger] parts@[j])@.len() == t0.column_sizes()[j] by {
                assert(payloads@[j]@.len() == w0.sizes()[t0.signature()[j]]);
            }
            // the entity is not yet in `t`
            if t0.entities().contains(entity) {
                let q = choose|q: int| 0 <= q < t0.entities().len() && t0.entities()[q] == entity;
                assert(self.archetypes@[t as int].entities()[q] == entity);
            }
        }
        if !self.archetypes[t].can_accept_row() {
            return Err(EcsError::AllocationFailure);
        }
        let new_row = self.archetypes[t].len();
        let _ = self.archetypes[t].add_entity(entity, parts.as_slice());
        let ghost t1 = self.archetypes@[t as int];
        let removed = self.archetypes[src].remove_row(row);
        let ghost s2 = self.archetypes@[src as int];
        let ghost out = removed->Ok_0@;
        let ghost last = s0.entities().len() - 1;
        let ghost moved = s0.entities()[last];
        let src_len = self.archetypes[src].len();
        if row < src_len {
            match self.archetypes[src].entity_at(row) {
                Some(m) => {
                    self.entity_index.insert(m, Record { archetype: src, row });
                },
                None => {},
            }
        }
        self.entity_index.insert(entity, Record { archetype: t, row: new_row });
        proof {
            let n = self.archetypes@.len();
            assert(self.archetypes@ == w0.archetypes@.update(t as int, t1).update(src as int, s2));
            assert forall|a: int| 0 <= a < n && a != t && a != src implies #[trigger]
                self.archetypes@[a] == w0.archetypes@[a] by {}
            assert(t1.entities() == t0.entities().push(entity));
            assert(Archetype::removed(s0, s2, row as int, out));
            assert(s0.entities()[row as int] == entity);
            assert(w0.entity_index@.contains_key(moved));
            // the index maps each stored entity to its row
            assert forall|e: EntityId| #[trigger] self.entity_index@.contains_key(e) implies {
                let rc = self.entity_index@[e];
                &&& rc.archetype < self.archetypes@.len()
                &&& rc.row < self.archetypes@[rc.archetype as int].entities().len()
                &&& self.archetypes@[rc.archetype as int].entities()[rc.row as int] == e
            } by {
                if e != entity && !(e == moved && row < last) {
                    assert(w0.entity_index@.contains_key(e));
                    let rc = w0.entity_index@[e];
                    assert(self.entity_index@[e] == rc);
                    if rc.archetype == t {
                        assert(t1.entities()[rc.row as int] == t0.entities()[rc.row as int]);
                    } else if rc.archetype == src {
                        assert(rc.row != row);
                        assert(rc.row != last);
                        assert(s2.entities()[rc.row as int] == s0.entities()[rc.row as int]);
                    }
                }
            }
            assert forall|a: int, q: int|
                0 <= a < n && 0 <= q < self.archetypes@[a].entities().len() implies {
                let e = #[trigger] self.archetypes@[a].entities()[q];
                &&& self.entity_index@.contains_key(e)
                &&& self.entity_index@[e] == Record { archetype: a as usize, row: q as usize }
            } by {
                let e = self.archetypes@[a].entities()[q];
                if a == t as int {
                    if q < t0.entities().len() {
                        assert(t0.entities()[q] == e);
                        assert(w0.entity_index@[e] == Record { archetype: a as usize, row: q as usize });
                        assert(e != entity);
                        assert(e != moved);
                    }
                } else if a == src as int {
                    if q == row {
                        assert(e == moved);
                    } else {
                        assert(s0.entities()[q] == e);
                        assert(w0.entity_index@[e] == Record { archetype: a as usize, row: q as usize });
                        assert(e != moved);
                    }
                } else {
                    assert(w0.archetypes@[a].entities()[q] == e);
                    assert(w0.entity_index@[e] == Record { archetype: a as usize, row: q as usize });
                }
            }
            assert forall|e: EntityId| #[trigger] self.entity_index@.contains_key(e) <==> e
                < self.next_entity_id by {
                assert(w0.entity_index@.contains_key(e) == self.entity_index@.contains_key(e));
            }
            // the archetypes stay well formed, distinct, sized and linked as before
            assert forall|a: int| 0 <= a < n implies {
                let arch = #[trigger] self.archetypes@[a];
                &&& arch.wf()
                &&& arch.ident() == a
                &&& is_canonical(arch.signature())
                &&& forall|c: int|
                    0 <= c < arch.signature().len() ==> self.component_size_index@.contains_key(
                        #[trigger] arch.signature()[c],
                    ) && arch.column_sizes()[c] == self.component_size_index@[arch.signature()[c]]
            } by {
                assert(w0.archetypes@[a].wf());
            }
            assert forall|a: int| 0 <= a < n implies #[trigger] self.archetypes@[a].signature()
                == w0.archetypes@[a].signature() && self.archetypes@[a].edge_map()
                == w0.archetypes@[a].edge_map() by {}
            assert forall|a: int, b: int|
                0 <= a < n && 0 <= b < n && a != b implies (
                #[trigger] self.archetypes@[a]).signature() != (
            #[trigger] self.archetypes@[b]).signature() by {
                assert(w0.archetypes@[a].signature() != w0.archetypes@[b].signature());
            }
            assert forall|a: int, k: ComponentId|
                0 <= a < n && #[trigger] self.archetypes@[a].edge_map().contains_key(k) implies {
                let edge = self.archetypes@[a].edge_map()[k];
                let set = self.archetypes@[a].signature().to_set();
                &&& edge.add is Some ==> {
                    &&& edge.add->0 < self.archetypes@.len()
                    &&& !set.contains(k)
                    &&& self.archetypes@[edge.add->0 as int].signature().to_set() == set.insert(k)
                }
                &&& edge.remove is Some ==> {
                    &&& edge.remove->0 < self.archetypes@.len()
                    &&& set.contains(k)
                    &&& self.archetypes@[edge.remove->0 as int].signature().to_set() == set.remove(
                        k,
                    )
                }
            } by {
                assert(w0.archetypes@[a].edge_map().contains_key(k));
                let edge = self.archetypes@[a].edge_map()[k];
                if edge.add is Some {
                    assert(self.archetypes@[edge.add->0 as int].signature() == w0.archetypes@[edge.add->0 as int].signature());
                }
                if edge.remove is Some {
                    assert(self.archetypes@[edge.remove->0 as int].signature() == w0.archetypes@[edge.remove->0 as int].signature());
                }
            }
            // the moved entity's components
            let parts_seq = Seq::new(payloads@.len(), |j: int| payloads@[j]@);
            assert forall|j: int| 0 <= j < parts_seq.len() implies t1.columns()[j][new_row as int]
                == #[trigger] parts_seq[j] by {
                assert(t1.columns()[j] == t0.columns()[j].push(parts@[j]@));
                assert(t0.columns()[j].len() == t0.entities().len());
            }
            Archetype::lemma_row_map_of_parts(t1, new_row as int, parts_seq);
            // everyone else keeps their components
            assert forall|x: EntityId|
                w0.entity_ids().contains(x) && x != entity implies #[trigger] self.archetype_of(x)
                    == w0.archetype_of(x) && self.components(x) == w0.components(x) by {
                let rc = w0.entity_index@[x];
                assert(w0.entity_index@.contains_key(x));
                if rc.archetype == t {
                    assert(t0.entities()[rc.row as int] == x);
                    assert forall|cc: int, q: int|
                        0 <= cc < t0.columns().len() && 0 <= q < t0.entities().len() implies (
                        #[trigger] t1.columns()[cc][q]) == t0.columns()[cc][q] by {
                        assert(t1.columns()[cc] == t0.columns()[cc].push(parts@[cc]@));
                    }
                    Archetype::lemma_row_map_after_push(t0, t1, rc.row as int);
                } else if rc.archetype == src {
                    assert(rc.row != row);
                    let q = self.entity_index@[x].row;
                    Archetype::lemma_row_map_after_remove(s0, s2, row as int, out, q as int);
                } else {
                    assert(self.archetypes@[rc.archetype as int] == w0.archetypes@[rc.archetype as int]);
                }
            }
            assert forall|a: int| 0 <= a < w0.archetype_count() implies #[trigger] self.signature(a)
                == w0.signature(a) by {}
            assert(self.entity_ids() =~= w0.entity_ids());
            assert(self.archetype_count() == w0.archetype_count());
            assert(self.next_entity() == w0.next_entity());
            assert(self.sizes() == w0.sizes());
            assert(self.archetype_of(entity) == t);
            assert(Self::others_kept(w0, *self, entity));
            assert forall|a: int| 0 <= a < w0.archetype_count() implies #[trigger] self.archetype(
                a,
            ).edge_map() == w0.archetype(a).edge_map() by {
                assert(self.archetypes@[a].signature() == w0.archetypes@[a].signature());
            }
        }
        Ok(())
    }
    /// Under `same_storage`, every entity keeps its archetype and components, and every
    /// archetype its signature.
    proof fn lemma_same_storage_components(old: Self, new: Self)
        requires
            old.wf(),
            Self::same_storage(old, new),
        ensures
            forall|x: EntityId|
                old.entity_ids().contains(x) ==> #[trigger] new.archetype_of(x) == old.archetype_of(
                    x,
                ) && new.components(x) == old.components(x),
            forall|a: int| 0 <= a < old.archetype_count() ==> #[trigger] new.signature(a) == old.signature(a),
    {
        assert forall|x: EntityId| old.entity_ids().contains(x) implies #[trigger] new.archetype_of(x)
            == old.archetype_of(x) && new.components(x) == old.components(x) by {
            assert(old.entity_index@.contains_key(x));
            let a = old.location(x).archetype as int;
            assert(new.location(x) == old.location(x));
            assert(new.archetype(a).signature() == old.archetype(a).signature());
            assert(new.archetype(a).columns() == old.archetype(a).columns());
            assert(new.components(x) =~= old.components(x));
        }
        assert forall|a: int| 0 <= a < old.archetype_count() implies #[trigger] new.signature(a)
            == old.signature(a) by {
            assert(new.archetype(a).signature() == old.archetype(a).signature());
        }
    }

    /// Replaces the bytes of `kind`, which `entity` already holds, at `rec`.
    fn overwrite(
        &mut self,
        entity: EntityId,
        rec: Record,
        column: usize,
        kind: ComponentId,
        bytes: &[u8],
    )
        requires
            old(self).wf(),
            old(self).entity_ids().contains(entity),
            old(self).location(entity) == rec,
            column < old(self).signature(rec.archetype as int).len(),
            old(self).signature(rec.archetype as int)[column as int] == kind,
            old(self).sizes().contains_key(kind),
            old(self).sizes()[kind] == bytes@.len(),
        ensures
            final(self).wf(),
            final(self).archetype_count() == old(self).archetype_count(),
            final(self).entity_ids() == old(self).entity_ids(),
            final(self).next_entity() == old(self).next_entity(),
            final(self).sizes() == old(self).sizes(),
            final(self).location(entity) == old(self).location(entity),
            final(self).components(entity) == old(self).components(entity).insert(kind, bytes@),
            Self::others_kept(*old(self), *final(self), entity),
    {
        let ghost w0 = *self;
        let src = rec.archetype;
        let ghost s0 = self.archetypes@[src as int];
        assert(s0.wf());
        assert(s0.column_sizes()[column as int] == self.component_size_index@[kind]);
        let _ = self.archetypes[src].set_component(rec.row, column, bytes);
        proof {
            let s1 = self.archetypes@[src as int];
            let n = self.archetypes@.len();
            assert(self.archetypes@ == w0.archetypes@.update(src as int, s1));
            assert forall|a: int| 0 <= a < n && a != src implies #[trigger] self.archetypes@[a]
                == w0.archetypes@[a] by {}
            assert forall|a: int| 0 <= a < n implies #[trigger] self.archetypes@[a].signature()
                == w0.archetypes@[a].signature() && self.archetypes@[a].edge_map()
                == w0.archetypes@[a].edge_map() && self.archetypes@[a].entities()
                == w0.archetypes@[a].entities() by {}
            assert forall|a: int| 0 <= a < n implies {
                let arch = #[trigger] self.archetypes@[a];
                &&& arch.wf()
                &&& arch.ident() == a
                &&& is_canonical(arch.signature())
                &&& forall|c: int|
                    0 <= c < arch.signature().len() ==> self.component_size_index@.contains_key(
                        #[trigger] arch.signature()[c],
                    ) && arch.column_sizes()[c] == self.component_size_index@[arch.signature()[c]]
            } by {
                assert(w0.archetypes@[a].wf());
            }
            assert forall|a: int, b: int|
                0 <= a < n && 0 <= b < n && a != b implies (
                #[trigger] self.archetypes@[a]).signature() != (
            #[trigger] self.archetypes@[b]).signature() by {
                assert(w0.archetypes@[a].signature() != w0.archetypes@[b].signature());
            }
            assert forall|a: int, q: int|
                0 <= a < n && 0 <= q < self.archetypes@[a].entities().len() implies {
                let e = #[trigger] self.archetypes@[a].entities()[q];
                &&& self.entity_index@.contains_key(e)
                &&& self.entity_index@[e] == Record { archetype: a as usize, row: q as usize }
            } by {
                assert(w0.archetypes@[a].entities()[q] == self.archetypes@[a].entities()[q]);
            }
            assert forall|e: EntityId| #[trigger] self.entity_index@.contains_key(e) implies {
                let rc = self.entity_index@[e];
                &&& rc.archetype < self.archetypes@.len()
                &&& rc.row < self.archetypes@[rc.archetype as int].entities().len()
                &&& self.archetypes@[rc.archetype as int].entities()[rc.row as int] == e
            } by {
                let rc = self.entity_index@[e];
                assert(w0.archetypes@[rc.archetype as int].entities() == self.archetypes@[rc.archetype as int].entities());
            }
            assert forall|a: int, k: ComponentId|
                0 <= a < n && #[trigger] self.archetypes@[a].edge_map().contains_key(k) implies {
                let edge = self.archetypes@[a].edge_map()[k];
                let set = self.archetypes@[a].signature().to_set();
                &&& edge.add is Some ==> {
                    &&& edge.add->0 < self.archetypes@.len()
                    &&& !set.contains(k)
                    &&& self.archetypes@[edge.add->0 as int].signature().to_set() == set.insert(k)
                }
                &&& edge.remove is Some ==> {
                    &&& edge.remove->0 < self.archetypes@.len()
                    &&& set.contains(k)
                    &&& self.archetypes@[edge.remove->0 as int].signature().to_set() == set.remove(
                        k,
                    )
                }
            } by {
                assert(w0.archetypes@[a].edge_map().contains_key(k));
                let edge = self.archetypes@[a].edge_map()[k];
                if edge.add is Some {
                    assert(self.archetypes@[edge.add->0 as int].signature() == w0.archetypes@[edge.add->0 as int].signature());
                }
                if edge.remove is Some {
                    assert(self.archetypes@[edge.remove->0 as int].signature() == w0.archetypes@[edge.remove->0 as int].signature());
                }
            }
            // components
            lemma_index_of_distinct(s0.signature(), column as int);
            assert(self.components(entity) =~= w0.components(entity).insert(kind, bytes@));
            assert(self.entity_index@ == w0.entity_index@);
            assert forall|x: EntityId|
                w0.entity_ids().contains(x) && x != entity implies #[trigger] self.archetype_of(x)
                    == w0.archetype_of(x) && self.components(x) == w0.components(x) by {
                assert(w0.entity_index@.contains_key(x));
                let rc = w0.entity_index@[x];
                assert(self.location(x) == rc && w0.location(x) == rc);
                if rc.archetype == src {
                    assert(rc.row != rec.row);
                    let s1 = self.archetypes@[src as int];
                    let q = rc.row as int;
                    assert forall|k: ComponentId| #[trigger] s1.row_map(q).contains_key(k) implies s1.row_map(
                        q,
                    )[k] == s0.row_map(q)[k] by {
                        let c2 = s0.signature().index_of(k);
                        assert(0 <= c2 < s0.signature().len() && s0.signature()[c2] == k);
                        if c2 == column {
                            assert(s1.columns()[c2] == s0.columns()[c2].update(rec.row as int, bytes@));
                        } else {
                            assert(s1.columns()[c2] == s0.columns()[c2]);
                        }
                    }
                    assert(s1.row_map(q) =~= s0.row_map(q));
                } else {
                    assert(self.archetypes@[rc.archetype as int] == w0.archetypes@[rc.archetype as int]);
                }
            }
            assert forall|a: int| 0 <= a < w0.archetype_count() implies #[trigger] self.signature(a)
                == w0.signature(a) by {
                assert(self.archetypes@[a].signature() == w0.archetypes@[a].signature());
            }
            assert(self.archetype_count() == w0.archetype_count());
            assert(Self::others_kept(w0, *self, entity));
        }
    }

    /// A target `t` with the kinds `set` that cannot take a row is `blocked`.
    proof fn lemma_blocked(w0: Self, w2: Self, t: int, set: Set<ComponentId>)
        requires
            w2.wf(),
            0 <= t < w2.archetype_count(),
            w2.signature(t).to_set() == set,
            !w2.archetype(t).accepts_row(),
            w0.archetype_count() <= w2.archetype_count(),
            forall|a: int|
                0 <= a < w0.archetype_count() ==> {
                    let x = #[trigger] w2.archetype(a);
                    let y = w0.archetype(a);
                    &&& x.signature() == y.signature()
                    &&& x.entities() == y.entities()
                    &&& x.columns() == y.columns()
                    &&& x.column_sizes() == y.column_sizes()
                    &&& x.column_capacities() == y.column_capacities()
                },
            forall|a: int|
                w0.archetype_count() <= a < w2.archetype_count() ==> Self::fresh(
                    #[trigger] w2.archetype(a),
                ),
            w0.has_signature(set) ==> w2.archetype_count() == w0.archetype_count(),
        ensures
            Self::blocked(w0, w2.sizes(), set),
    {
        assert(w2.archetypes@[t].wf());
        let arch = w2.archetype(t);
        arch.lemma_accepts_row();
        assert(!arch.row_fits());
        let c = choose|c: int| 0 <= c < arch.column_sizes().len() && !#[trigger] arch.row_fits_column(c);
        if t < w0.archetype_count() {
            assert(w2.signature(t) == w0.signature(t));
            assert(!w0.archetype(t).row_fits_column(c));
        } else {
            assert(Self::fresh(arch));
            let k = arch.signature()[c];
            assert(w2.sizes().contains_key(k) && arch.column_sizes()[c] == w2.sizes()[k]);
            assert(w2.sizes()[k] > isize::MAX);
            assert(arch.signature().contains(k));
            assert(set.contains(k));
        }
    }

    /// Whether `kind` is registered with a size other than `size`.
    pub open spec fn size_conflict(w: Self, kind: ComponentId, size: nat) -> bool {
        w.sizes().contains_key(kind) && w.sizes()[kind] != size
    }

    /// `new` is `old` after `kind` with `bytes` was attached to entity `e`: `e` holds its
    /// former components and `bytes` for `kind`, in the archetype whose signature is that
    /// set of kinds; no other entity changed; an archetype was created only where none had
    /// that signature.
    pub open spec fn added(
        old: Self,
        new: Self,
        e: EntityId,
        kind: ComponentId,
        bytes: Seq<u8>,
    ) -> bool {
        &&& new.entity_ids() == old.entity_ids()
        &&& new.next_entity() == old.next_entity()
        &&& new.sizes() == old.sizes().insert(kind, bytes.len() as usize)
        &&& new.components(e) == old.components(e).insert(kind, bytes)
        &&& new.archetype_of(e) < new.archetype_count()
        &&& new.signature(new.archetype_of(e) as int).to_set() == new.components(e).dom()
        &&& Self::others_kept(old, new, e)
        &&& old.has_signature(old.components(e).dom().insert(kind)) ==> new.archetype_count()
            == old.archetype_count()
        &&& old.components(e).contains_key(kind) ==> new.location(e) == old.location(e)
        &&& !old.components(e).contains_key(kind) ==> Self::moved(
            old,
            new,
            e,
            old.archetype_of(e),
            new.archetype_of(e),
        )
        &&& !old.components(e).contains_key(kind) ==> new.archetype(
            old.archetype_of(e) as int,
        ).add_edge(kind) == Some(new.archetype_of(e)) && new.archetype(
            new.archetype_of(e) as int,
        ).remove_edge(kind) == Some(old.archetype_of(e))
    }

    /// The rows of archetype `t` in `old`; none where `t` does not exist there yet.
    pub open spec fn rows_before(old: Self, t: ArchetypeId) -> Seq<EntityId> {
        if t < old.archetype_count() {
            old.archetype(t as int).entities()
        } else {
            Seq::<EntityId>::empty()
        }
    }

    /// Entity `e` left archetype `s` for archetype `t`, where it takes the row after the
    /// rows `t` had.
    pub open spec fn moved(old: Self, new: Self, e: EntityId, s: ArchetypeId, t: ArchetypeId) -> bool {
        &&& s != t
        &&& new.location(e).row == Self::rows_before(old, t).len()
        &&& new.archetype(t as int).entities() == Self::rows_before(old, t).push(e)
    }

    /// Attaches the component `kind`, given as its bytes, to `entity`. The entity moves to
    /// the archetype of its kinds and `kind`, found through the edge cache or by signature
    /// and created where none exists; where it already holds `kind`, the bytes are replaced
    /// in place. A kind registered with another size is a broken type registry, which the
    /// caller rules out (see `component_size`). Fails, changing nothing, where the entity
    /// does not exist; fails with `AllocationFailure` exactly where the target archetype is
    /// `blocked`, leaving every entity's components as they were.
    pub fn add_component(&mut self, entity: EntityId, kind: ComponentId, bytes: &[u8]) -> (r:
        Result<(), EcsError>)
        requires
            old(self).wf(),
            !Self::size_conflict(*old(self), kind, bytes@.len()),
        ensures
            final(self).wf(),
            !old(self).entity_ids().contains(entity) ==> r == Err::<(), EcsError>(
                EcsError::UnknownEntity,
            ) && *final(self) == *old(self),
            old(self).entity_ids().contains(entity) ==> r is Ok || r == Err::<(), EcsError>(
                EcsError::AllocationFailure,
            ),
            old(self).entity_ids().contains(entity) && old(self).components(entity).contains_key(
                kind,
            ) ==> r is Ok,
            r is Ok ==> Self::added(*old(self), *final(self), entity, kind, bytes@),
            r == Err::<(), EcsError>(EcsError::AllocationFailure) ==> {
                &&& final(self).entity_ids() == old(self).entity_ids()
                &&& final(self).next_entity() == old(self).next_entity()
                &&& final(self).sizes() == old(self).sizes().insert(kind, bytes@.len() as usize)
                &&& final(self).archetype_of(entity) == old(self).archetype_of(entity)
                &&& final(self).components(entity) == old(self).components(entity)
                &&& Self::others_kept(*old(self), *final(self), entity)
                &&& Self::blocked(
                    *old(self),
                    final(self).sizes(),
                    old(self).components(entity).dom().insert(kind),
                )
                &&& old(self).has_signature(old(self).components(entity).dom().insert(kind))
                    ==> final(self).archetype_count() == old(self).archetype_count()
            },
    {
        let ghost w0 = *self;
        let rec: Record = match self.entity_index.get(&entity) {
            Some(found) => *found,
            None => return Err(EcsError::UnknownEntity),
        };
        let _ = self.register_component(kind, bytes.len());
        let ghost w1 = *self;
        proof {
            w0.lemma_wf();
            assert(w1.location(entity) == rec);
            assert(w1.archetype(rec.archetype as int) == w0.archetype(rec.archetype as int));
            assert(w1.components(entity) == w0.components(entity));
            assert forall|x: EntityId| w0.entity_ids().contains(x) implies #[trigger] w1.archetype_of(x)
                == w0.archetype_of(x) && w1.components(x) == w0.components(x) by {
                assert(w1.location(x) == w0.location(x));
                assert(w1.archetype(w0.location(x).archetype as int) == w0.archetype(
                    w0.location(x).archetype as int,
                ));
            }
            assert forall|a: int| 0 <= a < w0.archetype_count() implies #[trigger] w1.signature(a)
                == w0.signature(a) by {
                assert(w1.archetype(a) == w0.archetype(a));
            }
            assert(w1.has_signature(w0.components(entity).dom().insert(kind)) == w0.has_signature(
                w0.components(entity).dom().insert(kind),
            )) by {
                if w0.has_signature(w0.components(entity).dom().insert(kind)) {
                    let a = choose|a: int|
                        0 <= a < w0.archetype_count() && #[trigger] w0.signature(a).to_set()
                            == w0.components(entity).dom().insert(kind);
                    assert(w1.signature(a) == w0.signature(a));
                }
                if w1.has_signature(w0.components(entity).dom().insert(kind)) {
                    let a = choose|a: int|
                        0 <= a < w1.archetype_count() && #[trigger] w1.signature(a).to_set()
                            == w0.components(entity).dom().insert(kind);
                    assert(w1.signature(a) == w0.signature(a));
                }
            }
        }
        let src = rec.archetype;
        assert(self.archetypes@[src as int].wf());
        match self.archetypes[src].column_index(kind) {
            Some(column) => {
                self.overwrite(entity, rec, column, kind, bytes);
                proof {
                    self.lemma_wf();
                    assert(w0.components(entity).dom().contains(kind));
                    assert(w0.components(entity).dom().insert(kind) == w0.components(entity).dom());
                    assert(w0.has_signature(w0.components(entity).dom()));
                }
                return Ok(());
            },
            None => {},
        }
        proof {
            assert(w1.signature(src as int).to_set() == w0.components(entity).dom());
        }
        let t = self.resolve_target(src, kind, true);
        let ghost w2 = *self;
        proof {
            Self::lemma_same_storage_components(w1, w2);
            assert(w2.location(entity) == rec);
        }
        proof {
            assert forall|c: int|
                0 <= c < w2.signature(t as int).len() implies #[trigger] w2.signature(t as int)[c]
                == kind || w2.signature(src as int).contains(w2.signature(t as int)[c]) by {
                assert(w2.signature(t as int).to_set().contains(w2.signature(t as int)[c]));
            }
            assert(w2.sizes()[kind] == bytes@.len());
        }
        let payloads = self.row_for(src, rec.row, t, kind, bytes);
        proof {
            let parts = Seq::new(payloads@.len(), |c: int| payloads@[c]@);
            assert(w2.archetypes@[t as int].wf());
            assert(w2.archetypes@[src as int].wf());
            assert(w2.signature(src as int).to_set() == w2.components(entity).dom());
            lemma_payloads_added(
                w2.signature(t as int),
                w2.components(entity),
                kind,
                bytes@,
                parts,
            );
        }
        let moved = self.migrate(entity, rec, t, payloads);
        proof {
            if moved is Ok {
                self.lemma_wf();
                if (t as int) < w0.archetype_count() {
                    assert(w1.archetype(t as int) == w0.archetype(t as int));
                    assert(w2.archetype(t as int).entities() == w1.archetype(t as int).entities());
                } else {
                    assert(Self::fresh(w2.archetype(t as int)));
                    assert(w2.archetype(t as int).entities() =~= Seq::<EntityId>::empty());
                }
                assert(w2.archetype(t as int).entities() == Self::rows_before(w0, t));
                assert(self.archetype(src as int).edge_map() == w2.archetype(src as int).edge_map());
                assert(self.archetype(t as int).edge_map() == w2.archetype(t as int).edge_map());
                assert(Self::moved(w0, *self, entity, src, t));
                assert forall|x: EntityId|
                    w0.entity_ids().contains(x) && x != entity implies #[trigger] self.archetype_of(x)
                        == w0.archetype_of(x) && self.components(x) == w0.components(x) by {
                    assert(w2.archetype_of(x) == w1.archetype_of(x));
                    assert(w2.components(x) == w1.components(x));
                }
                assert forall|a: int| 0 <= a < w0.archetype_count() implies #[trigger] self.signature(a)
                    == w0.signature(a) by {
                    assert(w1.signature(a) == w0.signature(a));
                    assert(w2.signature(a) == w1.signature(a));
                }
            } else {
                assert(w2.signature(t as int).to_set() == w0.components(entity).dom().insert(kind));
                assert forall|x: EntityId|
                    w0.entity_ids().contains(x) && x != entity implies #[trigger] self.archetype_of(x)
                        == w0.archetype_of(x) && self.components(x) == w0.components(x) by {
                    assert(w2.archetype_of(x) == w1.archetype_of(x));
                    assert(w2.components(x) == w1.components(x));
                }
                assert forall|a: int| 0 <= a < w0.archetype_count() implies #[trigger] self.signature(a)
                    == w0.signature(a) by {
                    assert(w1.signature(a) == w0.signature(a));
                    assert(w2.signature(a) == w1.signature(a));
                }
                assert(w2.components(entity) == w1.components(entity));
                let target = w0.components(entity).dom().insert(kind);
                assert(w1.has_signature(target) == w0.has_signature(target));
                assert forall|a: int| 0 <= a < w0.archetype_count() implies {
                    let x = #[trigger] w2.archetype(a);
                    let y = w0.archetype(a);
                    &&& x.signature() == y.signature()
                    &&& x.entities() == y.entities()
                    &&& x.columns() == y.columns()
                    &&& x.column_sizes() == y.column_sizes()
                    &&& x.column_capacities() == y.column_capacities()
                } by {
                    assert(w1.archetype(a) == w0.archetype(a));
                }
                Self::lemma_blocked(w0, w2, t as int, target);
            }
        }
        moved
    }

    /// Where `entity` is stored, or `None` where it does not exist.
    pub fn location_of(&self, entity: EntityId) -> (r: Option<Record>)
        requires
            self.wf(),
        ensures
            r is Some <==> self.entity_ids().contains(entity),
            r is Some ==> r->0 == self.location(entity),
    {
        match self.entity_index.get(&entity) {
            Some(found) => Some(*found),
            None => None,
        }
    }

    /// The archetype that holds `entity`, or `None` where it does not exist.
    pub fn entity_archetype(&self, entity: EntityId) -> (r: Option<ArchetypeId>)
        requires
            self.wf(),
        ensures
            r is Some <==> self.entity_ids().contains(entity),
            r is Some ==> r->0 == self.archetype_of(entity),
    {
        match self.entity_index.get(&entity) {
            Some(found) => Some(found.archetype),
            None => None,
        }
    }

    /// The bytes of `entity`'s component `kind`, or `None` where the entity does not exist
    /// or does not hold the kind.
    pub fn get_component(&self, entity: EntityId, kind: ComponentId) -> (r: Option<Vec<u8>>)
        requires
            self.wf(),
        ensures
            r is Some <==> self.entity_ids().contains(entity) && self.components(
                entity,
            ).contains_key(kind),
            r is Some ==> r->0@ == self.components(entity)[kind],
    {
        let rec = match self.entity_index.get(&entity) {
            Some(found) => *found,
            None => return None,
        };
        assert(self.archetypes@[rec.archetype as int].wf());
        match self.archetypes[rec.archetype].column_index(kind) {
            Some(column) => self.archetypes[rec.archetype].component(rec.row, column),
            None => None,
        }
    }

    /// The number of archetypes.
    pub fn archetypes_len(&self) -> (r: usize)
        ensures
            r == self.archetype_count(),
    {
        self.archetypes.len()
    }

    /// The archetype with id `id`, or `None` where there is none. Its columns can be read
    /// row by row to process every entity of one signature together.
    pub fn archetype_ref(&self, id: ArchetypeId) -> (r: Option<&Archetype>)
        ensures
            id < self.archetype_count() ==> r is Some && *r->0 == self.archetype(id as int),
            id >= self.archetype_count() ==> r is None,
    {
        if id < self.archetypes.len() {
            Some(&self.archetypes[id])
        } else {
            None
        }
    }

    /// The signature of archetype `id`, or `None` where there is none.
    pub fn archetype_signature(&self, id: ArchetypeId) -> (r: Option<Vec<ComponentId>>)
        ensures
            id < self.archetype_count() ==> r is Some && r->0@ == self.signature(id as int),
            id >= self.archetype_count() ==> r is None,
    {
        if id < self.archetypes.len() {
            Some(vstd::slice::slice_to_vec(self.archetypes[id].types()))
        } else {
            None
        }
    }

    /// The number of entities created so far, which is also the next entity's id.
    pub fn entity_count(&self) -> (r: usize)
        ensures
            r == self.next_entity(),
    {
        self.next_entity_id
    }

    /// `new` is `old` after `kind` was detached from entity `e`: `e` holds its former
    /// components but `kind`, in the archetype whose signature is that set of kinds; no
    /// other entity changed; an archetype was created only where none had that signature.
    pub open spec fn detached(old: Self, new: Self, e: EntityId, kind: ComponentId) -> bool {
        &&& new.entity_ids() == old.entity_ids()
        &&& new.next_entity() == old.next_entity()
        &&& new.sizes() == old.sizes()
        &&& new.components(e) == old.components(e).remove(kind)
        &&& new.archetype_of(e) < new.archetype_count()
        &&& new.signature(new.archetype_of(e) as int).to_set() == new.components(e).dom()
        &&& Self::others_kept(old, new, e)
        &&& old.has_signature(old.components(e).dom().remove(kind)) ==> new.archetype_count()
            == old.archetype_count()
        &&& !old.components(e).contains_key(kind) ==> new.location(e) == old.location(e)
        &&& old.components(e).contains_key(kind) ==> Self::moved(
            old,
            new,
            e,
            old.archetype_of(e),
            new.archetype_of(e),
        )
        &&& old.components(e).contains_key(kind) ==> new.archetype(
            old.archetype_of(e) as int,
        ).remove_edge(kind) == Some(new.archetype_of(e)) && new.archetype(
            new.archetype_of(e) as int,
        ).add_edge(kind) == Some(old.archetype_of(e))
    }

    /// Detaches the component `kind` from `entity`, which moves to the archetype of its
    /// other kinds, found through the edge cache or by signature and created where none
    /// exists. Detaching a kind the entity does not hold changes nothing. Fails, changing
    /// nothing, where the entity does not exist; fails with `AllocationFailure` where a
    /// column of the target archetype cannot grow, leaving every entity's components as
    /// they were.
    pub fn remove_component(&mut self, entity: EntityId, kind: ComponentId) -> (r: Result<
        (),
        EcsError,
    >)
        requires
            old(self).wf(),
        ensures
            final(self).wf(),
            !old(self).entity_ids().contains(entity) ==> r == Err::<(), EcsError>(
                EcsError::UnknownEntity,
            ) && *final(self) == *old(self),
            old(self).entity_ids().contains(entity) && !old(self).components(entity).contains_key(
                kind,
            ) ==> r == Ok::<(), EcsError>(()) && *final(self) == *old(self),
            old(self).entity_ids().contains(entity) ==> r is Ok || r == Err::<(), EcsError>(
                EcsError::AllocationFailure,
            ),
            r is Ok ==> Self::detached(*old(self), *final(self), entity, kind),
            r == Err::<(), EcsError>(EcsError::AllocationFailure) ==> {
                &&& final(self).entity_ids() == old(self).entity_ids()
                &&& final(self).next_entity() == old(self).next_entity()
                &&& final(self).sizes() == old(self).sizes()
                &&& final(self).archetype_of(entity) == old(self).archetype_of(entity)
                &&& final(self).components(entity) == old(self).components(entity)
                &&& Self::others_kept(*old(self), *final(self), entity)
                &&& Self::blocked(
                    *old(self),
                    final(self).sizes(),
                    old(self).components(entity).dom().remove(kind),
                )
                &&& old(self).has_signature(old(self).components(entity).dom().remove(kind))
                    ==> final(self).archetype_count() == old(self).archetype_count()
            },
    {
        let ghost w0 = *self;
        proof {
            w0.lemma_wf();
        }
        let rec: Record = match self.entity_index.get(&entity) {
            Some(found) => *found,
            None => return Err(EcsError::UnknownEntity),
        };
        let src = rec.archetype;
        assert(self.archetypes@[src as int].wf());
        match self.archetypes[src].column_index(kind) {
            Some(_) => {},
            None => {
                proof {
                    assert(!w0.components(entity).contains_key(kind));
                    assert(w0.components(entity).remove(kind) =~= w0.components(entity));
                }
                return Ok(());
            },
        }
        proof {
            assert(w0.signature(src as int).to_set() == w0.components(entity).dom());
            assert(w0.signature(src as int).contains(kind));
        }
        let t = self.resolve_target(src, kind, false);
        let ghost w2 = *self;
        proof {
            Self::lemma_same_storage_components(w0, w2);
            assert(w2.location(entity) == rec);
            assert forall|c: int|
                0 <= c < w2.signature(t as int).len() implies #[trigger] w2.signature(t as int)[c]
                == kind || w2.signature(src as int).contains(w2.signature(t as int)[c]) by {
                assert(w2.signature(t as int).to_set().contains(w2.signature(t as int)[c]));
            }
            assert(!w2.signature(t as int).contains(kind)) by {
                assert(!w2.signature(t as int).to_set().contains(kind));
            }
        }
        let none: Vec<u8> = Vec::new();
        let payloads = self.row_for(src, rec.row, t, kind, none.as_slice());
        proof {
            let parts = Seq::new(payloads@.len(), |c: int| payloads@[c]@);
            assert(w2.archetypes@[t as int].wf());
            assert forall|c: int| 0 <= c < w2.signature(t as int).len() implies #[trigger] parts[c]
                == w2.components(entity)[w2.signature(t as int)[c]] by {
                assert(w2.signature(t as int)[c] != kind);
            }
            lemma_payloads_removed(w2.signature(t as int), w2.components(entity), kind, parts);
        }
        let moved = self.migrate(entity, rec, t, payloads);
        proof {
            if moved is Ok {
                self.lemma_wf();
                if (t as int) >= w0.archetype_count() {
                    assert(Self::fresh(w2.archetype(t as int)));
                    assert(w2.archetype(t as int).entities() =~= Seq::<EntityId>::empty());
                }
                assert(w2.archetype(t as int).entities() == Self::rows_before(w0, t));
                assert(self.archetype(src as int).edge_map() == w2.archetype(src as int).edge_map());
                assert(self.archetype(t as int).edge_map() == w2.archetype(t as int).edge_map());
                assert(Self::moved(w0, *self, entity, src, t));
            } else {
                assert(w2.components(entity) == w0.components(entity));
                let target = w0.components(entity).dom().remove(kind);
                Self::lemma_blocked(w0, w2, t as int, target);
            }
            assert forall|x: EntityId|
                w0.entity_ids().contains(x) && x != entity implies #[trigger] self.archetype_of(x)
                    == w0.archetype_of(x) && self.components(x) == w0.components(x) by {
                assert(w2.archetype_of(x) == w0.archetype_of(x));
                assert(w2.components(x) == w0.components(x));
            }
            assert forall|a: int| 0 <= a < w0.archetype_count() implies #[trigger] self.signature(a)
                == w0.signature(a) by {
                assert(w2.signature(a) == w0.signature(a));
            }
        }
        moved
    }
}

/// The components of a row of signature `sig` whose columns hold `parts`.
pub open spec fn payload_map(sig: Seq<ComponentId>, parts: Seq<Seq<u8>>) -> Map<
    ComponentId,
    Seq<u8>,
> {
    Map::new(|k: ComponentId| sig.contains(k), |k: ComponentId| parts[sig.index_of(k)])
}

/// The row built for `sig`, a signature with the kinds of `before` and `kind`, from
/// `before` and `bytes` holds `before` with `bytes` for `kind`.
proof fn lemma_payloads_added(
    sig: Seq<ComponentId>,
    before: Map<ComponentId, Seq<u8>>,
    kind: ComponentId,
    bytes: Seq<u8>,
    parts: Seq<Seq<u8>>,
)
    requires
        sig.no_duplicates(),
        sig.to_set() == before.dom().insert(kind),
        parts.len() == sig.len(),
        forall|c: int|
            0 <= c < sig.len() ==> #[trigger] parts[c] == if sig[c] == kind {
                bytes
            } else {
                before[sig[c]]
            },
    ensures
        payload_map(sig, parts) == before.insert(kind, bytes),
{
    assert forall|k: ComponentId| #[trigger] payload_map(sig, parts).contains_key(k) <==> before.insert(
        kind,
        bytes,
    ).contains_key(k) by {
        assert(sig.to_set().contains(k) == sig.contains(k));
    }
    assert forall|k: ComponentId| #[trigger] payload_map(sig, parts).contains_key(k) implies payload_map(
        sig,
        parts,
    )[k] == before.insert(kind, bytes)[k] by {
        let j = sig.index_of(k);
        assert(0 <= j < sig.len() && sig[j] == k);
    }
    assert(payload_map(sig, parts) =~= before.insert(kind, bytes));
}

/// The row built for `sig`, the signature of `before` without `kind`, from `before` holds
/// `before` without `kind`.
proof fn lemma_payloads_removed(
    sig: Seq<ComponentId>,
    before: Map<ComponentId, Seq<u8>>,
    kind: ComponentId,
    parts: Seq<Seq<u8>>,
)
    requires
        sig.no_duplicates(),
        sig.to_set() == before.dom().remove(kind),
        parts.len() == sig.len(),
        forall|c: int| 0 <= c < sig.len() ==> #[trigger] parts[c] == before[sig[c]],
    ensures
        payload_map(sig, parts) == before.remove(kind),
{
    assert forall|k: ComponentId| #[trigger] payload_map(sig, parts).contains_key(k) <==> before.remove(
        kind,
    ).contains_key(k) by {
        assert(sig.to_set().contains(k) == sig.contains(k));
    }
    assert forall|k: ComponentId| #[trigger] payload_map(sig, parts).contains_key(k) implies payload_map(
        sig,
        parts,
    )[k] == before.remove(kind)[k] by {
        let j = sig.index_of(k);
        assert(0 <= j < sig.len() && sig[j] == k);
    }
    assert(payload_map(sig, parts) =~= before.remove(kind));
}

} // verus!
