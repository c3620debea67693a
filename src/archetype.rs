use std::collections::HashMap;
use vstd::prelude::*;
use vstd::std_specs::hash::group_hash_axioms;

use crate::component_array::{can_grow, ComponentArray};
use crate::error::EcsError;

verus! {

broadcast use group_hash_axioms;

/// The stable numeric identity of a component kind.
pub type ComponentId = u64;

/// The index of an archetype in the world's archetype list.
pub type ArchetypeId = usize;

/// An entity identifier.
pub type EntityId = usize;

/// A cached transition of the archetype graph, keyed by a component kind: `add` leads to
/// the archetype reached by inserting the kind, `remove` to the one reached by deleting it.
#[derive(Clone, Copy, Debug, PartialEq, Eq)]
pub struct ArchetypeEdge {
    pub add: Option<ArchetypeId>,
    pub remove: Option<ArchetypeId>,
}

impl ArchetypeEdge {
    /// The edge held by the archetype that lacks the kind, leading to `new_archetype`.
    pub fn old_to_new(new_archetype: ArchetypeId) -> (r: Self)
        ensures
            r.add == Some(new_archetype),
            r.remove is None,
    {
        Self { add: Some(new_archetype), remove: None }
    }

    /// The edge held by the archetype that has the kind, leading back to `old_archetype`.
    pub fn new_to_old(old_archetype: ArchetypeId) -> (r: Self)
        ensures
            r.add is None,
            r.remove == Some(old_archetype),
    {
        Self { add: None, remove: Some(old_archetype) }
    }
}

/// Index of `s[i]` in a sequence without duplicates is `i`.
pub proof fn lemma_index_of_distinct<A>(s: Seq<A>, i: int)
    requires
        s.no_duplicates(),
        0 <= i < s.len(),
    ensures
        s.index_of(s[i]) == i,
{
    let j = s.index_of(s[i]);
    assert(s.contains(s[i]));
    assert(0 <= j < s.len() && s[j] == s[i]);
}

/// The columns of one exact component signature, with the entity that owns each row and
/// a cache of transitions to neighbouring archetypes.
///
/// Rows are removed by moving the last row into the vacated one, so a removal shifts at
/// most one entity.
pub struct Archetype {
    id: ArchetypeId,
    types: Vec<ComponentId>,
    entities: Vec<EntityId>,
    component_arrays: Vec<ComponentArray>,
    edges: HashMap<ComponentId, ArchetypeEdge>,
}

impl Archetype {
    /// The id given at creation.
    pub closed spec fn ident(&self) -> ArchetypeId {
        self.id
    }

    /// The component kinds, in column order.
    pub closed spec fn signature(&self) -> Seq<ComponentId> {
        self.types@
    }

    /// The entity that owns each row.
    pub closed spec fn entities(&self) -> Seq<EntityId> {
        self.entities@
    }

    /// The elements of each column, in signature order.
    pub closed spec fn columns(&self) -> Seq<Seq<Seq<u8>>> {
        Seq::new(self.component_arrays@.len(), |c: int| self.component_arrays@[c]@)
    }

    /// The element size of each column, in signature order.
    pub closed spec fn column_sizes(&self) -> Seq<nat> {
        Seq::new(self.component_arrays@.len(), |c: int| self.component_arrays@[c].item_size())
    }

    /// The capacity of each column, in signature order.
    pub closed spec fn column_capacities(&self) -> Seq<nat> {
        Seq::new(self.component_arrays@.len(), |c: int| self.component_arrays@[c].reserved())
    }

    /// The transition cache.
    pub closed spec fn edge_map(&self) -> Map<ComponentId, ArchetypeEdge> {
        self.edges@
    }

    pub closed spec fn inv(&self) -> bool {
        &&& self.component_arrays@.len() == self.types@.len()
        &&& forall|c: int|
            0 <= c < self.component_arrays@.len() ==> (#[trigger] self.component_arrays@[c]).wf()
    }

    /// Well-formedness: one column per kind, no kind twice, no entity twice, and every
    /// column holds one element of its size per row.
    pub open spec fn wf(&self) -> bool {
        &&& self.inv()
        &&& self.columns().len() == self.signature().len()
        &&& self.column_sizes().len() == self.signature().len()
        &&& self.column_capacities().len() == self.signature().len()
        &&& self.signature().no_duplicates()
        &&& self.entities().no_duplicates()
        &&& forall|c: int|
            0 <= c < self.columns().len() ==> (#[trigger] self.columns()[c]).len()
                == self.entities().len()
        &&& forall|c: int, r: int|
            0 <= c < self.columns().len() && 0 <= r < self.entities().len() ==> (
            #[trigger] self.columns()[c][r]).len() == self.column_sizes()[c]
    }

    /// Whether every column can take one more element without failing to grow.
    pub open spec fn accepts_row(&self) -> bool {
        forall|c: int|
            0 <= c < self.columns().len() ==> self.entities().len() < #[trigger] self.column_capacities()[c]
                || can_grow(self.column_capacities()[c], self.column_sizes()[c])
    }

    /// Whether one more row fits every column: its byte size stays within `isize::MAX`
    /// and its length within `usize::MAX`.
    pub open spec fn row_fits(&self) -> bool {
        forall|c: int| 0 <= c < self.column_sizes().len() ==> #[trigger] self.row_fits_column(c)
    }

    /// Whether one more row fits column `c`.
    pub open spec fn row_fits_column(&self, c: int) -> bool {
        &&& self.entities().len() + 1 <= usize::MAX
        &&& (self.entities().len() + 1) * self.column_sizes()[c] <= isize::MAX
    }

    /// A well-formed archetype can take a row exactly where the row fits.
    pub proof fn lemma_accepts_row(&self)
        requires
            self.wf(),
        ensures
            self.accepts_row() == self.row_fits(),
    {
        let len = self.entities().len() as int;
        assert forall|c: int| 0 <= c < self.columns().len() implies (len < #[trigger] self.column_capacities()[c]
            || can_grow(self.column_capacities()[c], self.column_sizes()[c]))
            == self.row_fits_column(c) by {
            let col = self.component_arrays@[c];
            assert(col.wf());
            assert(self.columns()[c] == col@);
            let cap = col.reserved() as int;
            let es = col.item_size() as int;
            assert(self.column_capacities()[c] == cap);
            assert(self.column_sizes()[c] == es);
            if len < cap {
                assert((len + 1) * es <= cap * es) by (nonlinear_arith)
                    requires
                        len + 1 <= cap,
                        0 <= es,
                ;
            }
        }
        assert(self.column_sizes().len() == self.columns().len());
        if self.accepts_row() {
            assert forall|c: int| 0 <= c < self.column_sizes().len() implies #[trigger] self.row_fits_column(c) by {
                assert(len < self.column_capacities()[c] || can_grow(
                    self.column_capacities()[c],
                    self.column_sizes()[c],
                ));
            }
        }
        if self.row_fits() {
            assert forall|c: int| 0 <= c < self.columns().len() implies len
                < #[trigger] self.column_capacities()[c] || can_grow(
                self.column_capacities()[c],
                self.column_sizes()[c],
            ) by {
                assert(self.row_fits_column(c));
            }
        }
    }

    /// The components of row `row`, keyed by kind.
    pub open spec fn row_map(&self, row: int) -> Map<ComponentId, Seq<u8>> {
        Map::new(
            |k: ComponentId| self.signature().contains(k),
            |k: ComponentId| self.columns()[self.signature().index_of(k)][row],
        )
    }

    /// A new archetype without entities or edges, with one empty column per kind of
    /// `types`, of the matching size in `sizes`.
    pub fn new(id: ArchetypeId, types: Vec<ComponentId>, sizes: &[usize]) -> (r: Self)
        requires
            types@.len() == sizes@.len(),
            types@.no_duplicates(),
        ensures
            r.wf(),
            r.ident() == id,
            r.signature() == types@,
            r.entities() == Seq::<EntityId>::empty(),
            r.columns() == Seq::new(types@.len(), |c: int| Seq::<Seq<u8>>::empty()),
            r.column_sizes() == Seq::new(sizes@.len(), |c: int| sizes@[c] as nat),
            r.column_capacities() == Seq::new(types@.len(), |c: int| 0nat),
            r.edge_map() == Map::<ComponentId, ArchetypeEdge>::empty(),
    {
        let mut component_arrays: Vec<ComponentArray> = Vec::new();
        let mut i: usize = 0;
        while i < sizes.len()
            invariant
                i <= sizes@.len(),
                component_arrays@.len() == i,
                forall|c: int|
                    0 <= c < i ==> (#[trigger] component_arrays@[c]).wf() && component_arrays@[c]@
                        == Seq::<Seq<u8>>::empty() && component_arrays@[c].item_size()
                        == sizes@[c] && component_arrays@[c].reserved() == 0,
            decreases sizes@.len() - i,
        {
            component_arrays.push(ComponentArray::new(sizes[i]));
            i = i + 1;
        }
        let r = Self { id, types, entities: Vec::new(), component_arrays, edges: HashMap::new() };
        proof {
            assert(r.columns() =~= Seq::new(types@.len(), |c: int| Seq::<Seq<u8>>::empty()));
            assert(r.column_sizes() =~= Seq::new(sizes@.len(), |c: int| sizes@[c] as nat));
            assert(r.column_capacities() =~= Seq::new(types@.len(), |c: int| 0nat));
        }
        r
    }

    /// The id given at creation.
    pub fn id(&self) -> (r: ArchetypeId)
        ensures
            r == self.ident(),
    {
        self.id
    }

    /// The component kinds, in column order.
    pub fn types(&self) -> (r: &[ComponentId])
        ensures
            r@ == self.signature(),
    {
        self.types.as_slice()
    }

    /// The number of rows, that is of entities.
    pub fn len(&self) -> (r: usize)
        ensures
            r == self.entities().len(),
    {
        self.entities.len()
    }

    /// The entity at `row`, or `None` where the row does not exist.
    pub fn entity_at(&self, row: usize) -> (r: Option<EntityId>)
        ensures
            row < self.entities().len() ==> r == Some(self.entities()[row as int]),
            row >= self.entities().len() ==> r is None,
    {
        if row < self.entities.len() {
            Some(self.entities[row])
        } else {
            None
        }
    }

    /// The column of `kind`, or `None` where the kind is not in the signature.
    pub fn column_index(&self, kind: ComponentId) -> (r: Option<usize>)
        requires
            self.wf(),
        ensures
            r is Some ==> r->0 < self.signature().len() && self.signature()[r->0 as int] == kind
                && self.signature().index_of(kind) == r->0,
            r is None ==> !self.signature().contains(kind),
    {
        let mut i: usize = 0;
        while i < self.types.len()
            invariant
                self.wf(),
                i <= self.types@.len(),
                forall|j: int| 0 <= j < i ==> self.types@[j] != kind,
            decreases self.types@.len() - i,
        {
            if self.types[i] == kind {
                proof {
                    lemma_index_of_distinct(self.types@, i as int);
                }
                return Some(i);
            }
            i = i + 1;
        }
        None
    }

    /// The row of `entity`, or `None` where the entity is not in this archetype.
    pub fn row_of(&self, entity: EntityId) -> (r: Option<usize>)
        requires
            self.wf(),
        ensures
            r is Some ==> r->0 < self.entities().len() && self.entities()[r->0 as int] == entity,
            r is None ==> !self.entities().contains(entity),
    {
        let mut i: usize = 0;
        while i < self.entities.len()
            invariant
                i <= self.entities@.len(),
                forall|j: int| 0 <= j < i ==> self.entities@[j] != entity,
            decreases self.entities@.len() - i,
        {
            if self.entities[i] == entity {
                return Some(i);
            }
            i = i + 1;
        }
        None
    }

    /// The `c`-th column, in signature order, or `None` where there is none. Its elements
    /// are the components of that kind of every entity of the archetype, in row order.
    pub fn column(&self, c: usize) -> (r: Option<&ComponentArray>)
        requires
            self.wf(),
        ensures
            c < self.signature().len() ==> r is Some && r->0.wf() && r->0@ == self.columns()[c as int]
                && r->0.item_size() == self.column_sizes()[c as int],
            c >= self.signature().len() ==> r is None,
    {
        if c < self.component_arrays.len() {
            assert(self.component_arrays@[c as int].wf());
            Some(&self.component_arrays[c])
        } else {
            None
        }
    }

    /// The cached transition for `kind`, if any.
    pub fn edge(&self, kind: ComponentId) -> (r: Option<ArchetypeEdge>)
        ensures
            r is Some <==> self.edge_map().contains_key(kind),
            r is Some ==> r->0 == self.edge_map()[kind],
    {
        match self.edges.get(&kind) {
            Some(e) => Some(*e),
            None => None,
        }
    }

    /// The bytes of the `column`-th component of row `row`, or `None` where either does
    /// not exist.
    pub fn component(&self, row: usize, column: usize) -> (r: Option<Vec<u8>>)
        requires
            self.wf(),
        ensures
            row < self.entities().len() && column < self.signature().len() ==> r is Some
                && r->0@ == self.columns()[column as int][row as int],
            !(row < self.entities().len() && column < self.signature().len()) ==> r is None,
    {
        if column >= self.component_arrays.len() || row >= self.entities.len() {
            return None;
        }
        assert(self.component_arrays@[column as int].wf());
        assert(self.columns()[column as int] == self.component_arrays@[column as int]@);
        self.component_arrays[column].get_bytes(row)
    }

    /// The cached `remove` transition for `kind`, if any.
    pub open spec fn remove_edge(&self, kind: ComponentId) -> Option<ArchetypeId> {
        if self.edge_map().contains_key(kind) {
            self.edge_map()[kind].remove
        } else {
            None
        }
    }

    /// The cached `add` transition for `kind`, if any.
    pub open spec fn add_edge(&self, kind: ComponentId) -> Option<ArchetypeId> {
        if self.edge_map().contains_key(kind) {
            self.edge_map()[kind].add
        } else {
            None
        }
    }

    /// Records the transition to `old_archetype_id`, reached by deleting `component_id`.
    /// A cached transition for inserting that kind is kept.
    pub fn add_edge_to_old(&mut self, component_id: ComponentId, old_archetype_id: ArchetypeId)
        ensures
            final(self).edge_map() == old(self).edge_map().insert(
                component_id,
                ArchetypeEdge {
                    add: old(self).add_edge(component_id),
                    remove: Some(old_archetype_id),
                },
            ),
            final(self).ident() == old(self).ident(),
            final(self).signature() == old(self).signature(),
            final(self).entities() == old(self).entities(),
            final(self).columns() == old(self).columns(),
            final(self).column_sizes() == old(self).column_sizes(),
            final(self).column_capacities() == old(self).column_capacities(),
            final(self).inv() == old(self).inv(),
    {
        let mut edge = ArchetypeEdge::new_to_old(old_archetype_id);
        if let Some(cached) = self.edge(component_id) {
            edge.add = cached.add;
        }
        self.edges.insert(component_id, edge);
    }

    /// Records the transition to `new_archetype_id`, reached by inserting `component_id`.
    /// A cached transition for deleting that kind is kept.
    pub fn add_edge_to_new(&mut self, component_id: ComponentId, new_archetype_id: ArchetypeId)
        ensures
            final(self).edge_map() == old(self).edge_map().insert(
                component_id,
                ArchetypeEdge {
                    add: Some(new_archetype_id),
                    remove: old(self).remove_edge(component_id),
                },
            ),
            final(self).ident() == old(self).ident(),
            final(self).signature() == old(self).signature(),
            final(self).entities() == old(self).entities(),
            final(self).columns() == old(self).columns(),
            final(self).column_sizes() == old(self).column_sizes(),
            final(self).column_capacities() == old(self).column_capacities(),
            final(self).inv() == old(self).inv(),
    {
        let mut edge = ArchetypeEdge::old_to_new(new_archetype_id);
        if let Some(cached) = self.edge(component_id) {
            edge.remove = cached.remove;
        }
        self.edges.insert(component_id, edge);
    }

    /// Whether every column can take one more element without failing to grow.
    pub fn can_accept_row(&self) -> (r: bool)
        requires
            self.wf(),
        ensures
            r == self.accepts_row(),
    {
        let n = self.component_arrays.len();
        let mut c: usize = 0;
        while c < n
            invariant
                self.wf(),
                n == self.columns().len(),
                c <= n,
                forall|j: int|
                    0 <= j < c ==> self.entities().len() < #[trigger] self.column_capacities()[j]
                        || can_grow(self.column_capacities()[j], self.column_sizes()[j]),
            decreases n - c,
        {
            assert(self.component_arrays@[c as int].wf());
            assert(self.column_capacities()[c as int] == self.component_arrays@[c as int].reserved());
            assert(self.column_sizes()[c as int] == self.component_arrays@[c as int].item_size());
            assert(self.columns()[c as int] == self.component_arrays@[c as int]@);
            if !self.component_arrays[c].accepts_one() {
                return false;
            }
            c = c + 1;
        }
        true
    }

    /// Appends a row for `entity`, given one byte slice per column in signature order.
    /// Nothing is stored unless every column takes its slice.
    pub fn add_entity(&mut self, entity: EntityId, components: &[&[u8]]) -> (r: Result<
        (),
        EcsError,
    >)
        requires
            old(self).wf(),
            !old(self).entities().contains(entity),
        ensures
            final(self).wf(),
            final(self).ident() == old(self).ident(),
            final(self).signature() == old(self).signature(),
            final(self).column_sizes() == old(self).column_sizes(),
            final(self).edge_map() == old(self).edge_map(),
            !Self::fits(old(self).column_sizes(), components@) ==> r == Err::<(), EcsError>(
                EcsError::SizeMismatch,
            ) && *final(self) == *old(self),
            Self::fits(old(self).column_sizes(), components@) && !old(self).accepts_row() ==> r
                == Err::<(), EcsError>(EcsError::AllocationFailure) && *final(self) == *old(self),
            Self::fits(old(self).column_sizes(), components@) && old(self).accepts_row() ==> r
                == Ok::<(), EcsError>(()) && final(self).entities() == old(self).entities().push(
                entity,
            ) && final(self).columns() == Seq::new(
                old(self).columns().len(),
                |c: int| old(self).columns()[c].push(components@[c]@),
            ),
    {
        if components.len() != self.types.len() {
            return Err(EcsError::SizeMismatch);
        }
        let n = self.types.len();
        let mut c: usize = 0;
        while c < n
            invariant
                self.wf(),
                *self == *old(self),
                n == self.types@.len(),
                components@.len() == n,
                c <= n,
                forall|j: int| 0 <= j < c ==> (#[trigger] components@[j])@.len() == self.column_sizes()[j],
            decreases n - c,
        {
            assert(self.component_arrays@[c as int].wf());
            if components[c].len() != self.component_arrays[c].element_size() {
                return Err(EcsError::SizeMismatch);
            }
            c = c + 1;
        }
        c = 0;
        while c < n
            invariant
                self.wf(),
                *self == *old(self),
                Self::fits(self.column_sizes(), components@),
                n == self.types@.len(),
                c <= n,
                forall|j: int|
                    0 <= j < c ==> self.entities().len() < #[trigger] self.column_capacities()[j]
                        || can_grow(self.column_capacities()[j], self.column_sizes()[j]),
            decreases n - c,
        {
            assert(self.component_arrays@[c as int].wf());
            assert(self.column_capacities()[c as int] == self.component_arrays@[c as int].reserved());
            assert(self.column_sizes()[c as int] == self.component_arrays@[c as int].item_size());
            assert(self.columns()[c as int] == self.component_arrays@[c as int]@);
            if !self.component_arrays[c].accepts_one() {
                return Err(EcsError::AllocationFailure);
            }
            c = c + 1;
        }
        let ghost before = *self;
        c = 0;
        while c < n
            invariant
                before.wf(),
                before.accepts_row(),
                Self::fits(before.column_sizes(), components@),
                n == before.types@.len(),
                c <= n,
                self.id == before.id,
                self.types == before.types,
                self.entities == before.entities,
                self.edges == before.edges,
                self.component_arrays@.len() == n,
                forall|j: int|
                    0 <= j < n ==> (#[trigger] self.component_arrays@[j]).wf()
                        && self.component_arrays@[j].item_size()
                        == before.component_arrays@[j].item_size() && self.component_arrays@[j]@
                        == if j < c {
                        before.component_arrays@[j]@.push(components@[j]@)
                    } else {
                        before.component_arrays@[j]@
                    },
                forall|j: int|
                    c <= j < n ==> #[trigger] self.component_arrays@[j] == before.component_arrays@[j],
            decreases n - c,
        {
            assert(before.columns()[c as int] == before.component_arrays@[c as int]@);
            assert(before.column_sizes()[c as int] == before.component_arrays@[c as int].item_size());
            assert(before.column_capacities()[c as int] == before.component_arrays@[c as int].reserved());
            let _ = self.component_arrays[c].push_bytes(components[c]);
            c = c + 1;
        }
        self.entities.push(entity);
        proof {
            assert(self.columns() =~= Seq::new(
                before.columns().len(),
                |j: int| before.columns()[j].push(components@[j]@),
            ));
            assert(self.column_sizes() =~= before.column_sizes());
            assert forall|j: int|
                0 <= j < n implies (#[trigger] self.columns()[j]).len() == self.entities().len() by {
                assert(self.columns()[j] == before.columns()[j].push(components@[j]@));
            }
            assert forall|j: int, r: int|
                0 <= j < n && 0 <= r < self.entities().len() implies (
                #[trigger] self.columns()[j][r]).len() == self.column_sizes()[j] by {
                assert(self.columns()[j] == before.columns()[j].push(components@[j]@));
                if r < before.entities().len() {
                    assert(self.columns()[j][r] == before.columns()[j][r]);
                }
            }
            assert forall|a: int, b: int|
                0 <= a < self.entities().len() && 0 <= b < self.entities().len() && a != b
                implies self.entities()[a] != self.entities()[b] by {
                if a < before.entities().len() && b < before.entities().len() {
                } else if a == before.entities().len() {
                    assert(before.entities()[b] == self.entities()[b]);
                } else {
                    assert(before.entities()[a] == self.entities()[a]);
                }
            }
        }
        Ok(())
    }

    /// Whether `components` has one slice per column, each of its column's size.
    pub open spec fn fits(sizes: Seq<nat>, components: Seq<&[u8]>) -> bool {
        &&& components.len() == sizes.len()
        &&& forall|c: int| 0 <= c < sizes.len() ==> (#[trigger] components[c])@.len() == sizes[c]
    }
    /// Removes row `row` by moving the last row into it, and returns the removed
    /// components keyed by kind, in signature order.
    pub fn remove_row(&mut self, row: usize) -> (r: Result<Vec<(ComponentId, Vec<u8>)>, EcsError>)
        requires
            old(self).wf(),
        ensures
            final(self).wf(),
            final(self).ident() == old(self).ident(),
            final(self).signature() == old(self).signature(),
            final(self).column_sizes() == old(self).column_sizes(),
            final(self).column_capacities() == old(self).column_capacities(),
            final(self).edge_map() == old(self).edge_map(),
            row >= old(self).entities().len() ==> r == Err::<Vec<(ComponentId, Vec<u8>)>, EcsError>(
                EcsError::IndexOutOfRange,
            ) && *final(self) == *old(self),
            row < old(self).entities().len() ==> r is Ok && Self::removed(
                *old(self),
                *final(self),
                row as int,
                r->Ok_0@,
            ),
    {
        if row >= self.entities.len() {
            return Err(EcsError::IndexOutOfRange);
        }
        let ghost before = *self;
        let n = self.types.len();
        let mut out: Vec<(ComponentId, Vec<u8>)> = Vec::new();
        let mut c: usize = 0;
        while c < n
            invariant
                before.wf(),
                row < before.entities@.len(),
                n == before.types@.len(),
                c <= n,
                self.id == before.id,
                self.types == before.types,
                self.entities == before.entities,
                self.edges == before.edges,
                self.component_arrays@.len() == n,
                out@.len() == c,
                forall|j: int|
                    0 <= j < c ==> (#[trigger] out@[j]).0 == before.types@[j] && out@[j].1@
                        == before.columns()[j][row as int],
                forall|j: int|
                    0 <= j < n ==> (#[trigger] self.component_arrays@[j]).wf()
                        && self.component_arrays@[j].item_size()
                        == before.component_arrays@[j].item_size()
                        && self.component_arrays@[j].reserved()
                        == before.component_arrays@[j].reserved() && self.component_arrays@[j]@
                        == if j < c {
                        before.component_arrays@[j]@.update(
                            row as int,
                            before.component_arrays@[j]@.last(),
                        ).drop_last()
                    } else {
                        before.component_arrays@[j]@
                    },
            decreases n - c,
        {
            assert(before.columns()[c as int] == before.component_arrays@[c as int]@);
            let kind = self.types[c];
            let bytes = self.component_arrays[c].swap_remove_bytes(row);
            if let Some(b) = bytes {
                out.push((kind, b));
            }
            c = c + 1;
        }
        self.entities.swap_remove(row);
        proof {
            let cols = before.columns();
            let last = before.entities().len() - 1;
            assert forall|j: int| 0 <= j < n implies #[trigger] cols[j].last() == cols[j][last] by {
                assert(cols[j].len() == before.entities().len());
            }
            assert(self.columns() =~= Seq::new(
                cols.len(),
                |j: int| cols[j].update(row as int, cols[j][last]).drop_last(),
            ));
            assert(self.entities() =~= before.entities().update(
                row as int,
                before.entities()[last],
            ).drop_last());
            assert(self.column_sizes() =~= before.column_sizes());
            assert(self.column_capacities() =~= before.column_capacities());
            assert forall|j: int, q: int|
                0 <= j < n && 0 <= q < self.entities().len() implies (
                #[trigger] self.columns()[j][q]).len() == self.column_sizes()[j] by {
                if q == row {
                    assert(self.columns()[j][q] == cols[j][last]);
                } else {
                    assert(self.columns()[j][q] == cols[j][q]);
                }
            }
            assert forall|a: int, b: int|
                0 <= a < self.entities().len() && 0 <= b < self.entities().len() && a != b
                implies self.entities()[a] != self.entities()[b] by {
                let ea = if a == row { last } else { a };
                let eb = if b == row { last } else { b };
                assert(self.entities()[a] == before.entities()[ea]);
                assert(self.entities()[b] == before.entities()[eb]);
            }
        }
        Ok(out)
    }

    /// The state after removing row `row` of `old`, with `out` holding its components.
    pub open spec fn removed(old: Self, new: Self, row: int, out: Seq<(ComponentId, Vec<u8>)>) -> bool {
        let last = old.entities().len() - 1;
        &&& 0 <= row < old.entities().len()
        &&& new.entities() == old.entities().update(row, old.entities()[last]).drop_last()
        &&& new.columns() == Seq::new(
            old.columns().len(),
            |c: int| old.columns()[c].update(row, old.columns()[c][last]).drop_last(),
        )
        &&& out.len() == old.signature().len()
        &&& forall|c: int|
            0 <= c < out.len() ==> (#[trigger] out[c]).0 == old.signature()[c] && out[c].1@
                == old.columns()[c][row]
    }

    /// Removes `entity` and returns its components keyed by kind, in signature order. The
    /// entity in the last row moves into the vacated row.
    pub fn remove_entity(&mut self, entity: EntityId) -> (r: Vec<(ComponentId, Vec<u8>)>)
        requires
            old(self).wf(),
            old(self).entities().contains(entity),
        ensures
            final(self).wf(),
            final(self).ident() == old(self).ident(),
            final(self).signature() == old(self).signature(),
            final(self).column_sizes() == old(self).column_sizes(),
            final(self).column_capacities() == old(self).column_capacities(),
            final(self).edge_map() == old(self).edge_map(),
            Self::removed(*old(self), *final(self), old(self).entities().index_of(entity), r@),
    {
        let mut row: usize = 0;
        match self.row_of(entity) {
            Some(found) => {
                row = found;
            },
            None => {},
        }
        proof {
            lemma_index_of_distinct(self.entities(), row as int);
        }
        match self.remove_row(row) {
            Ok(out) => out,
            Err(_) => Vec::new(),
        }
    }

    /// Replaces the `column`-th component of row `row`.
    pub fn set_component(&mut self, row: usize, column: usize, bytes: &[u8]) -> (r: Result<
        (),
        EcsError,
    >)
        requires
            old(self).wf(),
        ensures
            final(self).wf(),
            final(self).ident() == old(self).ident(),
            final(self).signature() == old(self).signature(),
            final(self).entities() == old(self).entities(),
            final(self).column_sizes() == old(self).column_sizes(),
            final(self).column_capacities() == old(self).column_capacities(),
            final(self).edge_map() == old(self).edge_map(),
            !(row < old(self).entities().len() && column < old(self).signature().len()) ==> r
                == Err::<(), EcsError>(EcsError::IndexOutOfRange) && *final(self) == *old(self),
            row < old(self).entities().len() && column < old(self).signature().len()
                && bytes@.len() != old(self).column_sizes()[column as int] ==> r == Err::<
                (),
                EcsError,
            >(EcsError::SizeMismatch) && *final(self) == *old(self),
            row < old(self).entities().len() && column < old(self).signature().len()
                && bytes@.len() == old(self).column_sizes()[column as int] ==> r == Ok::<
                (),
                EcsError,
            >(()) && final(self).columns() == old(self).columns().update(
                column as int,
                old(self).columns()[column as int].update(row as int, bytes@),
            ),
    {
        if row >= self.entities.len() || column >= self.component_arrays.len() {
            return Err(EcsError::IndexOutOfRange);
        }
        assert(self.component_arrays@[column as int].wf());
        assert(self.columns()[column as int] == self.component_arrays@[column as int]@);
        assert(self.column_sizes()[column as int] == self.component_arrays@[column as int].item_size());
        if bytes.len() != self.component_arrays[column].element_size() {
            return Err(EcsError::SizeMismatch);
        }
        let ghost before = *self;
        let _ = self.component_arrays[column].set_bytes(row, bytes);
        proof {
            assert(forall|j: int|
                0 <= j < self.component_arrays@.len() && j != column ==> #[trigger] self.component_arrays@[j]
                    == before.component_arrays@[j]);
            assert(self.columns() =~= before.columns().update(
                column as int,
                before.columns()[column as int].update(row as int, bytes@),
            ));
            assert(self.column_sizes() =~= before.column_sizes());
            assert(self.column_capacities() =~= before.column_capacities());
            assert forall|j: int, q: int|
                0 <= j < self.columns().len() && 0 <= q < self.entities().len() implies (
                #[trigger] self.columns()[j][q]).len() == self.column_sizes()[j] by {
                if j == column && q != row {
                    assert(self.columns()[j][q] == before.columns()[j][q]);
                }
            }
        }
        Ok(())
    }
    /// Appending a row leaves the components of the existing rows as they were.
    pub proof fn lemma_row_map_after_push(old: Self, new: Self, row: int)
        requires
            old.wf(),
            new.signature() == old.signature(),
            new.columns().len() == old.columns().len(),
            forall|c: int, r: int|
                0 <= c < old.columns().len() && 0 <= r < old.entities().len() ==> (
                #[trigger] new.columns()[c][r]) == old.columns()[c][r],
            0 <= row < old.entities().len(),
        ensures
            new.row_map(row) == old.row_map(row),
    {
        assert forall|k: ComponentId| #[trigger] new.row_map(row).contains_key(k) implies new.row_map(
            row,
        )[k] == old.row_map(row)[k] by {
            let c = old.signature().index_of(k);
            assert(0 <= c < old.signature().len() && old.signature()[c] == k);
            assert(new.columns()[c][row] == old.columns()[c][row]);
        }
        assert(new.row_map(row) =~= old.row_map(row));
    }

    /// After `removed`, each surviving row holds what it held before; the row that took
    /// the vacated place holds what the last row held.
    pub proof fn lemma_row_map_after_remove(
        old: Self,
        new: Self,
        row: int,
        out: Seq<(ComponentId, Vec<u8>)>,
        q: int,
    )
        requires
            old.wf(),
            new.signature() == old.signature(),
            Self::removed(old, new, row, out),
            0 <= q < new.entities().len(),
        ensures
            new.row_map(q) == old.row_map(if q == row { old.entities().len() - 1 } else { q }),
    {
        let src = if q == row { old.entities().len() - 1 } else { q };
        assert forall|k: ComponentId| #[trigger] new.row_map(q).contains_key(k) implies new.row_map(
            q,
        )[k] == old.row_map(src)[k] by {
            let c = old.signature().index_of(k);
            assert(0 <= c < old.signature().len() && old.signature()[c] == k);
        }
        assert(new.row_map(q) =~= old.row_map(src));
    }

    /// The components of a row whose column `c` holds `parts[c]`.
    pub proof fn lemma_row_map_of_parts(a: Self, row: int, parts: Seq<Seq<u8>>)
        requires
            a.wf(),
            parts.len() == a.signature().len(),
            forall|c: int| 0 <= c < parts.len() ==> a.columns()[c][row] == #[trigger] parts[c],
        ensures
            a.row_map(row) == Map::new(
                |k: ComponentId| a.signature().contains(k),
                |k: ComponentId| parts[a.signature().index_of(k)],
            ),
    {
        assert forall|k: ComponentId| #[trigger] a.row_map(row).contains_key(k) implies a.row_map(
            row,
        )[k] == parts[a.signature().index_of(k)] by {
            let c = a.signature().index_of(k);
            assert(0 <= c < a.signature().len() && a.signature()[c] == k);
        }
        assert(a.row_map(row) =~= Map::new(
            |k: ComponentId| a.signature().contains(k),
            |k: ComponentId| parts[a.signature().index_of(k)],
        ));
    }
}

} // verus!
