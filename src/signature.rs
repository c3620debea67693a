use vstd::prelude::*;

use crate::archetype::ComponentId;

verus! {

/// A canonical signature lists its component kinds in strictly increasing order, so each
/// set of kinds has exactly one canonical signature.
pub open spec fn is_canonical(s: Seq<ComponentId>) -> bool {
    forall|i: int, j: int| 0 <= i < j < s.len() ==> s[i] < s[j]
}

/// A canonical signature has no kind twice.
pub proof fn lemma_canonical_distinct(s: Seq<ComponentId>)
    requires
        is_canonical(s),
    ensures
        s.no_duplicates(),
{
    assert forall|i: int, j: int| 0 <= i < s.len() && 0 <= j < s.len() && i != j implies s[i]
        != s[j] by {
        if i < j {
            assert(s[i] < s[j]);
        } else {
            assert(s[j] < s[i]);
        }
    }
}

/// Two canonical signatures with the same kinds are equal.
pub proof fn lemma_canonical_unique(a: Seq<ComponentId>, b: Seq<ComponentId>)
    requires
        is_canonical(a),
        is_canonical(b),
        a.to_set() == b.to_set(),
    ensures
        a == b,
    decreases a.len(),
{
    if a.len() == 0 {
        if b.len() > 0 {
            assert(b.to_set().contains(b[0]));
            assert(a.to_set().contains(b[0]));
        }
        assert(a =~= b);
    } else if b.len() == 0 {
        assert(a.to_set().contains(a[0]));
        assert(b.to_set().contains(a[0]));
    } else {
        assert(a.to_set().contains(b[0]));
        let i = choose|i: int| 0 <= i < a.len() && a[i] == b[0];
        assert(b.to_set().contains(a[0]));
        let j = choose|j: int| 0 <= j < b.len() && b[j] == a[0];
        assert(a[0] <= a[i]);
        assert(b[0] <= b[j]);
        assert(a[0] == b[0]);
        let ra = a.drop_first();
        let rb = b.drop_first();
        assert forall|x: ComponentId| ra.to_set().contains(x) <==> rb.to_set().contains(x) by {
            if ra.to_set().contains(x) {
                let p = choose|p: int| 0 <= p < ra.len() && ra[p] == x;
                assert(a[p + 1] == x && a[0] < a[p + 1]);
                assert(a.to_set().contains(x));
                let q = choose|q: int| 0 <= q < b.len() && b[q] == x;
                assert(q != 0);
                assert(rb[q - 1] == x);
            }
            if rb.to_set().contains(x) {
                let p = choose|p: int| 0 <= p < rb.len() && rb[p] == x;
                assert(b[p + 1] == x && b[0] < b[p + 1]);
                assert(b.to_set().contains(x));
                let q = choose|q: int| 0 <= q < a.len() && a[q] == x;
                assert(q != 0);
                assert(ra[q - 1] == x);
            }
        }
        assert(ra.to_set() =~= rb.to_set());
        lemma_canonical_unique(ra, rb);
        assert(a.len() == b.len());
        assert forall|k: int| 0 <= k < a.len() implies a[k] == b[k] by {
            if k > 0 {
                assert(a[k] == ra[k - 1]);
                assert(b[k] == rb[k - 1]);
            }
        }
        assert(a =~= b);
    }
}

/// The canonical signature that holds the kinds of `sig` and `kind`.
pub fn insert_sorted(sig: &[ComponentId], kind: ComponentId) -> (r: Vec<ComponentId>)
    requires
        is_canonical(sig@),
    ensures
        is_canonical(r@),
        r@.to_set() == sig@.to_set().insert(kind),
{
    let mut out: Vec<ComponentId> = Vec::new();
    let mut placed = false;
    let mut i: usize = 0;
    while i < sig.len()
        invariant
            is_canonical(sig@),
            is_canonical(out@),
            i <= sig@.len(),
            out@.to_set() == if placed {
                sig@.subrange(0, i as int).to_set().insert(kind)
            } else {
                sig@.subrange(0, i as int).to_set()
            },
            i < sig@.len() ==> forall|j: int| 0 <= j < out@.len() ==> out@[j] < sig@[i as int],
            !placed ==> forall|j: int| 0 <= j < out@.len() ==> out@[j] < kind,
        decreases sig@.len() - i,
    {
        let x = sig[i];
        let ghost prefix = sig@.subrange(0, i as int).to_set();
        if !placed && kind <= x {
            if kind < x {
                proof {
                    out@.lemma_push_to_set_commute(kind);
                }
                out.push(kind);
            } else {
                assert(prefix.insert(kind).insert(x) =~= prefix.insert(x));
            }
            placed = true;
        }
        proof {
            out@.lemma_push_to_set_commute(x);
        }
        out.push(x);
        proof {
            assert(sig@.subrange(0, i + 1) =~= sig@.subrange(0, i as int).push(x));
            sig@.subrange(0, i as int).lemma_push_to_set_commute(x);
            assert(prefix.insert(kind).insert(x) =~= prefix.insert(x).insert(kind));
        }
        i = i + 1;
        proof {
            if i < sig@.len() {
                assert(x < sig@[i as int]);
            }
        }
    }
    if !placed {
        proof {
            out@.lemma_push_to_set_commute(kind);
        }
        out.push(kind);
    }
    proof {
        assert(sig@.subrange(0, sig@.len() as int) =~= sig@);
    }
    out
}

/// The canonical signature that holds the kinds of `sig` other than `kind`.
pub fn remove_sorted(sig: &[ComponentId], kind: ComponentId) -> (r: Vec<ComponentId>)
    requires
        is_canonical(sig@),
    ensures
        is_canonical(r@),
        r@.to_set() == sig@.to_set().remove(kind),
{
    let mut out: Vec<ComponentId> = Vec::new();
    let mut i: usize = 0;
    while i < sig.len()
        invariant
            is_canonical(sig@),
            is_canonical(out@),
            i <= sig@.len(),
            out@.to_set() == sig@.subrange(0, i as int).to_set().remove(kind),
            i < sig@.len() ==> forall|j: int| 0 <= j < out@.len() ==> out@[j] < sig@[i as int],
        decreases sig@.len() - i,
    {
        let x = sig[i];
        let ghost prefix = sig@.subrange(0, i as int).to_set();
        if x != kind {
            proof {
                out@.lemma_push_to_set_commute(x);
            }
            out.push(x);
        }
        proof {
            assert(sig@.subrange(0, i + 1) =~= sig@.subrange(0, i as int).push(x));
            sig@.subrange(0, i as int).lemma_push_to_set_commute(x);
            if x != kind {
                assert(prefix.insert(x).remove(kind) =~= prefix.remove(kind).insert(x));
            } else {
                assert(prefix.insert(x).remove(kind) =~= prefix.remove(kind));
            }
        }
        i = i + 1;
        proof {
            if i < sig@.len() {
                assert(x < sig@[i as int]);
            }
        }
    }
    proof {
        assert(sig@.subrange(0, sig@.len() as int) =~= sig@);
    }
    out
}

/// The canonical signature of the kinds in `sig`, whatever their order or repetition.
pub fn canonical(sig: &[ComponentId]) -> (r: Vec<ComponentId>)
    ensures
        is_canonical(r@),
        r@.to_set() == sig@.to_set(),
{
    let mut out: Vec<ComponentId> = Vec::new();
    let mut i: usize = 0;
    while i < sig.len()
        invariant
            is_canonical(out@),
            i <= sig@.len(),
            out@.to_set() == sig@.subrange(0, i as int).to_set(),
        decreases sig@.len() - i,
    {
        out = insert_sorted(out.as_slice(), sig[i]);
        proof {
            assert(sig@.subrange(0, i + 1) =~= sig@.subrange(0, i as int).push(sig@[i as int]));
            sig@.subrange(0, i as int).lemma_push_to_set_commute(sig@[i as int]);
        }
        i = i + 1;
    }
    proof {
        assert(sig@.subrange(0, sig@.len() as int) =~= sig@);
    }
    out
}

/// Whether two signatures list the same kinds in the same order.
pub fn same_signature(a: &[ComponentId], b: &[ComponentId]) -> (r: bool)
    ensures
        r == (a@ == b@),
{
    if a.len() != b.len() {
        return false;
    }
    let mut i: usize = 0;
    while i < a.len()
        invariant
            a@.len() == b@.len(),
            i <= a@.len(),
            forall|j: int| 0 <= j < i ==> a@[j] == b@[j],
        decreases a@.len() - i,
    {
        if a[i] != b[i] {
            return false;
        }
        i = i + 1;
    }
    proof {
        assert(a@ =~= b@);
    }
    true
}

} // verus!
