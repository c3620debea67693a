use vstd::prelude::*;

use crate::error::EcsError;

verus! {

/// The capacity, in elements, that a full column of `element_size`-byte elements moves
/// to: one element for an unallocated column, twice the current capacity where that still
/// fits in `usize` and its byte size in `isize::MAX`, and one element more otherwise.
pub open spec fn grown_capacity(capacity: nat, element_size: nat) -> nat {
    if capacity == 0 {
        1
    } else if 2 * capacity <= usize::MAX && 2 * capacity * element_size <= isize::MAX {
        2 * capacity
    } else {
        capacity + 1
    }
}

/// Whether a column of `element_size`-byte elements can grow from `capacity`: one element
/// more must fit in `usize`, and its byte size must not exceed `isize::MAX`.
pub open spec fn can_grow(capacity: nat, element_size: nat) -> bool {
    &&& capacity + 1 <= usize::MAX
    &&& (capacity + 1) * element_size <= isize::MAX
}

/// Element `i` of a buffer of `element_size`-byte elements.
spec fn element_of(data: Seq<u8>, element_size: nat, i: int) -> Seq<u8> {
    data.subrange(i * element_size, i * element_size + element_size)
}

proof fn lemma_element_bounds(len: int, element_size: int, i: int)
    requires
        0 <= i < len,
        0 <= element_size,
    ensures
        0 <= i * element_size,
        i * element_size + element_size <= len * element_size,
        (i + 1) * element_size == i * element_size + element_size,
{
    assert(0 <= i * element_size) by (nonlinear_arith)
        requires
            0 <= i,
            0 <= element_size,
    ;
    assert(i * element_size + element_size <= len * element_size) by (nonlinear_arith)
        requires
            0 <= i < len,
            0 <= element_size,
    ;
    assert((i + 1) * element_size == i * element_size + element_size) by (nonlinear_arith);
}

proof fn lemma_capacity_bytes(len: int, capacity: int, element_size: int)
    requires
        0 <= len <= capacity,
        0 <= element_size,
    ensures
        len * element_size <= capacity * element_size,
{
    assert(len * element_size <= capacity * element_size) by (nonlinear_arith)
        requires
            0 <= len <= capacity,
            0 <= element_size,
    ;
}

proof fn lemma_pushes(
    start: Seq<Seq<u8>>,
    pushed: Seq<Seq<u8>>,
    states: Seq<Seq<Seq<u8>>>,
    i: int,
)
    requires
        states.len() == 2 * pushed.len() + 1,
        states[0] == start,
        forall|j: int| 0 <= j < pushed.len() ==> #[trigger] states[j + 1] == states[j].push(pushed[j]),
        0 <= i <= pushed.len(),
    ensures
        states[i] == start + pushed.take(i),
    decreases i,
{
    if i == 0 {
        assert(start + pushed.take(0) =~= start);
    } else {
        lemma_pushes(start, pushed, states, i - 1);
        assert(states[i] == states[i - 1].push(pushed[i - 1]));
        assert(start + pushed.take(i) =~= (start + pushed.take(i - 1)).push(pushed[i - 1]));
    }
}

proof fn lemma_pops(
    start: Seq<Seq<u8>>,
    pushed: Seq<Seq<u8>>,
    states: Seq<Seq<Seq<u8>>>,
    popped: Seq<Seq<u8>>,
    i: int,
)
    requires
        states.len() == 2 * pushed.len() + 1,
        states[0] == start,
        forall|j: int| 0 <= j < pushed.len() ==> #[trigger] states[j + 1] == states[j].push(pushed[j]),
        popped.len() == pushed.len(),
        forall|j: int|
            0 <= j < pushed.len() ==> #[trigger] states[pushed.len() + j + 1]
                == states[pushed.len() + j].drop_last() && popped[j] == states[pushed.len()
                + j].last(),
        0 <= i <= pushed.len(),
    ensures
        states[pushed.len() + i] == start + pushed.take(pushed.len() - i),
    decreases i,
{
    let n = pushed.len() as int;
    if i == 0 {
        lemma_pushes(start, pushed, states, n);
    } else {
        lemma_pops(start, pushed, states, popped, i - 1);
        assert(states[n + (i - 1) + 1] == states[n + i - 1].drop_last());
        assert((start + pushed.take(n - i + 1)).drop_last() =~= start + pushed.take(n - i));
    }
}

/// Elements leave a buffer in the reverse of the order they entered it, whatever growth
/// happened meanwhile: where `states` are the contents of a buffer that starts with
/// `start`, has each of `pushed` pushed in turn and is then popped as often, the pops
/// return `pushed` reversed and the buffer ends with `start` again.
pub proof fn lemma_pop_reverses_push(
    start: Seq<Seq<u8>>,
    pushed: Seq<Seq<u8>>,
    states: Seq<Seq<Seq<u8>>>,
    popped: Seq<Seq<u8>>,
)
    requires
        states.len() == 2 * pushed.len() + 1,
        states[0] == start,
        forall|j: int| 0 <= j < pushed.len() ==> #[trigger] states[j + 1] == states[j].push(pushed[j]),
        popped.len() == pushed.len(),
        forall|j: int|
            0 <= j < pushed.len() ==> #[trigger] states[pushed.len() + j + 1]
                == states[pushed.len() + j].drop_last() && popped[j] == states[pushed.len()
                + j].last(),
    ensures
        forall|j: int| 0 <= j < pushed.len() ==> #[trigger] popped[j] == pushed[pushed.len() - 1 - j],
        states.last() == start,
{
    let n = pushed.len() as int;
    assert forall|j: int| 0 <= j < n implies #[trigger] popped[j] == pushed[n - 1 - j] by {
        lemma_pops(start, pushed, states, popped, j);
        assert(states[n + j + 1] == states[n + j].drop_last());
        assert(popped[j] == states[n + j].last());
        assert((start + pushed.take(n - j)).last() == pushed[n - j - 1]);
    }
    lemma_pops(start, pushed, states, popped, n);
    assert(start + pushed.take(0) =~= start);
}

/// A growable, contiguous buffer of fixed-size elements of one component kind, held as
/// bytes. The element type is not known to the buffer; only its size is.
pub struct ComponentArray {
    data: Vec<u8>,
    element_size: usize,
    length: usize,
    capacity: usize,
}

impl View for ComponentArray {
    type V = Seq<Seq<u8>>;

    /// The stored elements, each as its bytes.
    closed spec fn view(&self) -> Seq<Seq<u8>> {
        Seq::new(
            self.length as nat,
            |i: int| element_of(self.data@, self.element_size as nat, i),
        )
    }
}

impl ComponentArray {
    /// The size in bytes of each element.
    pub closed spec fn item_size(&self) -> nat {
        self.element_size as nat
    }

    /// The number of elements the buffer can hold before it has to grow.
    pub closed spec fn reserved(&self) -> nat {
        self.capacity as nat
    }

    pub closed spec fn inv(&self) -> bool {
        &&& self.data@.len() == self.length * self.element_size
        &&& self.length <= self.capacity
        &&& self.capacity * self.element_size <= isize::MAX
    }

    /// Well-formedness: the buffer holds `len` elements of `item_size` bytes each, within
    /// its capacity.
    pub open spec fn wf(&self) -> bool {
        &&& self.inv()
        &&& self@.len() <= self.reserved()
        &&& self.reserved() * self.item_size() <= isize::MAX
        &&& self.reserved() <= usize::MAX
        &&& forall|i: int| 0 <= i < self@.len() ==> (#[trigger] self@[i]).len() == self.item_size()
    }

    proof fn lemma_inv_wf(&self)
        requires
            self.inv(),
        ensures
            self.wf(),
    {
        assert forall|i: int| 0 <= i < self@.len() implies (#[trigger] self@[i]).len()
            == self.item_size() by {
            lemma_element_bounds(self.length as int, self.element_size as int, i);
        }
    }

    proof fn lemma_bytes_fit(&self)
        requires
            self.inv(),
        ensures
            self.data@.len() <= isize::MAX,
    {
        lemma_capacity_bytes(self.length as int, self.capacity as int, self.element_size as int);
    }

    /// An empty buffer for elements of `element_size` bytes, with nothing allocated.
    pub fn new(element_size: usize) -> (r: Self)
        ensures
            r.wf(),
            r@ == Seq::<Seq<u8>>::empty(),
            r.item_size() == element_size,
            r.reserved() == 0,
    {
        let r = ComponentArray { data: Vec::new(), element_size, length: 0, capacity: 0 };
        proof {
            r.lemma_inv_wf();
            assert(r@ =~= Seq::<Seq<u8>>::empty());
        }
        r
    }

    /// The number of stored elements.
    pub fn len(&self) -> (r: usize)
        requires
            self.wf(),
        ensures
            r == self@.len(),
    {
        self.length
    }

    /// Whether no element is stored.
    pub fn is_empty(&self) -> (r: bool)
        requires
            self.wf(),
        ensures
            r == (self@.len() == 0),
    {
        self.length == 0
    }

    /// The number of elements that fit before the buffer grows.
    pub fn capacity(&self) -> (r: usize)
        requires
            self.wf(),
        ensures
            r == self.reserved(),
    {
        self.capacity
    }

    /// The size in bytes of each element.
    pub fn element_size(&self) -> (r: usize)
        requires
            self.wf(),
        ensures
            r == self.item_size(),
    {
        self.element_size
    }

    /// Whether one more element can be pushed without failing to grow.
    pub fn accepts_one(&self) -> (r: bool)
        requires
            self.wf(),
        ensures
            r == (self@.len() < self.reserved() || can_grow(self.reserved(), self.item_size())),
    {
        if self.length < self.capacity {
            return true;
        }
        self.next_capacity().is_some()
    }

    /// The capacity the buffer grows to, or `None` where it cannot grow.
    fn next_capacity(&self) -> (r: Option<usize>)
        requires
            self.wf(),
        ensures
            can_grow(self.reserved(), self.item_size()) ==> r == Some(
                grown_capacity(self.reserved(), self.item_size()) as usize,
            ) && grown_capacity(self.reserved(), self.item_size()) * self.item_size() <= isize::MAX
                && grown_capacity(self.reserved(), self.item_size()) <= usize::MAX,
            !can_grow(self.reserved(), self.item_size()) ==> r is None,
    {
        let plus_one: usize = match self.capacity.checked_add(1) {
            Some(c) => c,
            None => return None,
        };
        match plus_one.checked_mul(self.element_size) {
            Some(b) => {
                if b > isize::MAX as usize {
                    return None;
                }
            },
            None => return None,
        }
        if self.capacity == 0 {
            return Some(1);
        }
        match self.capacity.checked_mul(2) {
            Some(doubled) => match doubled.checked_mul(self.element_size) {
                Some(b) => {
                    if b <= isize::MAX as usize {
                        Some(doubled)
                    } else {
                        Some(plus_one)
                    }
                },
                None => Some(plus_one),
            },
            None => Some(plus_one),
        }
    }

    /// Raises the capacity to `grown_capacity` of the current one, keeping every stored
    /// byte. Fails, changing nothing, where the grown buffer would be too large.
    pub fn grow(&mut self) -> (r: Result<(), EcsError>)
        requires
            old(self).wf(),
        ensures
            final(self).wf(),
            final(self)@ == old(self)@,
            final(self).item_size() == old(self).item_size(),
            can_grow(old(self).reserved(), old(self).item_size()) ==> r == Ok::<(), EcsError>(())
                && final(self).reserved() == grown_capacity(old(self).reserved(), old(self).item_size()),
            !can_grow(old(self).reserved(), old(self).item_size()) ==> r == Err::<(), EcsError>(
                EcsError::AllocationFailure,
            ) && final(self).reserved() == old(self).reserved(),
    {
        let new_capacity: usize = match self.next_capacity() {
            Some(c) => c,
            None => return Err(EcsError::AllocationFailure),
        };
        let new_bytes: usize = new_capacity * self.element_size;
        proof {
            lemma_capacity_bytes(self.length as int, self.capacity as int, self.element_size as int);
            lemma_capacity_bytes(
                self.capacity as int,
                new_capacity as int,
                self.element_size as int,
            );
        }
        let additional: usize = new_bytes - self.data.len();
        self.data.reserve(additional);
        self.capacity = new_capacity;
        proof {
            self.lemma_inv_wf();
        }
        Ok(())
    }

    /// Appends one element given as its bytes, growing the buffer first where it is full.
    pub fn push_bytes(&mut self, bytes: &[u8]) -> (r: Result<(), EcsError>)
        requires
            old(self).wf(),
        ensures
            final(self).wf(),
            final(self).item_size() == old(self).item_size(),
            bytes@.len() != old(self).item_size() ==> r == Err::<(), EcsError>(
                EcsError::SizeMismatch,
            ) && final(self)@ == old(self)@ && final(self).reserved() == old(self).reserved(),
            bytes@.len() == old(self).item_size() && old(self)@.len() == old(self).reserved()
                && !can_grow(old(self).reserved(), old(self).item_size()) ==> r == Err::<
                (),
                EcsError,
            >(EcsError::AllocationFailure) && final(self)@ == old(self)@ && final(self).reserved()
                == old(self).reserved(),
            bytes@.len() == old(self).item_size() && (old(self)@.len() < old(self).reserved()
                || can_grow(old(self).reserved(), old(self).item_size())) ==> r == Ok::<
                (),
                EcsError,
            >(()) && final(self)@ == old(self)@.push(bytes@) && final(self).reserved() == (if old(
                self,
            )@.len() == old(self).reserved() {
                grown_capacity(old(self).reserved(), old(self).item_size())
            } else {
                old(self).reserved()
            }),
    {
        if bytes.len() != self.element_size {
            return Err(EcsError::SizeMismatch);
        }
        if self.length == self.capacity {
            let grown = self.grow();
            if grown.is_err() {
                return Err(EcsError::AllocationFailure);
            }
        }
        let ghost before = self.data@;
        let ghost old_view = self@;
        let ghost old_array = *self;
        let mut k: usize = 0;
        while k < bytes.len()
            invariant
                k <= bytes@.len(),
                bytes@.len() == self.element_size,
                old_array.inv(),
                old_array.length < old_array.capacity,
                before == old_array.data@,
                self.length == old_array.length,
                self.capacity == old_array.capacity,
                self.element_size == old_array.element_size,
                self.data@ == before + bytes@.subrange(0, k as int),
            decreases bytes@.len() - k,
        {
            self.data.push(bytes[k]);
            k = k + 1;
            proof {
                assert(bytes@.subrange(0, k as int) =~= bytes@.subrange(0, k - 1).push(
                    bytes@[k - 1],
                ));
            }
        }
        self.length = self.length + 1;
        proof {
            let es = self.element_size as int;
            let len = self.length as int;
            assert(bytes@.subrange(0, es) =~= bytes@);
            lemma_element_bounds(len, es, len - 1);
            assert forall|i: int| 0 <= i < len - 1 implies #[trigger] element_of(
                self.data@,
                es as nat,
                i,
            ) == element_of(before, es as nat, i) by {
                lemma_element_bounds(len - 1, es, i);
                assert(element_of(self.data@, es as nat, i) =~= element_of(before, es as nat, i));
            }
            assert(element_of(self.data@, es as nat, len - 1) =~= bytes@);
            assert(self@ =~= old_view.push(bytes@));
            self.lemma_inv_wf();
        }
        Ok(())
    }
    /// A copy of the bytes of element `i`.
    fn copy_element(&self, i: usize) -> (r: Vec<u8>)
        requires
            self.wf(),
            i < self@.len(),
        ensures
            r@ == self@[i as int],
    {
        let es = self.element_size;
        proof {
            self.lemma_bytes_fit();
            lemma_element_bounds(self.length as int, es as int, i as int);
        }
        let start: usize = i * es;
        let mut out: Vec<u8> = Vec::new();
        let mut k: usize = 0;
        while k < es
            invariant
                self.wf(),
                es == self.element_size,
                i < self.length,
                start == i * es,
                start + es <= self.data@.len(),
                self.data@.len() <= isize::MAX,
                k <= es,
                out@ == self.data@.subrange(start as int, start + k),
            decreases es - k,
        {
            out.push(self.data[start + k]);
            k = k + 1;
            proof {
                assert(self.data@.subrange(start as int, start + k) =~= self.data@.subrange(
                    start as int,
                    start + k - 1,
                ).push(self.data@[start + k - 1]));
            }
        }
        out
    }

    /// The bytes of element `i`, or `None` where `i` is not below the length.
    pub fn get_bytes(&self, i: usize) -> (r: Option<Vec<u8>>)
        requires
            self.wf(),
        ensures
            i >= self@.len() ==> r is None,
            i < self@.len() ==> r is Some && r->0@ == self@[i as int],
    {
        if i >= self.length {
            None
        } else {
            Some(self.copy_element(i))
        }
    }

    /// Replaces the bytes of element `i`.
    pub fn set_bytes(&mut self, i: usize, bytes: &[u8]) -> (r: Result<(), EcsError>)
        requires
            old(self).wf(),
        ensures
            final(self).wf(),
            final(self).item_size() == old(self).item_size(),
            final(self).reserved() == old(self).reserved(),
            i >= old(self)@.len() ==> r == Err::<(), EcsError>(EcsError::IndexOutOfRange)
                && final(self)@ == old(self)@,
            i < old(self)@.len() && bytes@.len() != old(self).item_size() ==> r == Err::<
                (),
                EcsError,
            >(EcsError::SizeMismatch) && final(self)@ == old(self)@,
            i < old(self)@.len() && bytes@.len() == old(self).item_size() ==> r == Ok::<
                (),
                EcsError,
            >(()) && final(self)@ == old(self)@.update(i as int, bytes@),
    {
        if i >= self.length {
            return Err(EcsError::IndexOutOfRange);
        }
        if bytes.len() != self.element_size {
            return Err(EcsError::SizeMismatch);
        }
        let es = self.element_size;
        proof {
            self.lemma_bytes_fit();
            lemma_element_bounds(self.length as int, es as int, i as int);
        }
        let start: usize = i * es;
        let ghost before = self.data@;
        let ghost old_array = *self;
        let mut k: usize = 0;
        while k < es
            invariant
                old_array.inv(),
                self.length == old_array.length,
                self.capacity == old_array.capacity,
                self.element_size == old_array.element_size,
                before == old_array.data@,
                es == self.element_size,
                bytes@.len() == es,
                start + es <= before.len(),
                before.len() <= isize::MAX,
                k <= es,
                self.data@.len() == before.len(),
                forall|t: int|
                    0 <= t < before.len() ==> #[trigger] self.data@[t] == if start <= t < start
                        + k {
                        bytes@[t - start]
                    } else {
                        before[t]
                    },
            decreases es - k,
        {
            self.data[start + k] = bytes[k];
            k = k + 1;
        }
        proof {
            let len = self.length as int;
            let esn = es as nat;
            assert forall|r: int| 0 <= r < len implies #[trigger] element_of(self.data@, esn, r)
                == if r == i {
                bytes@
            } else {
                element_of(before, esn, r)
            } by {
                lemma_element_bounds(len, es as int, r);
                if r < i {
                    assert(r * es + es <= i * es) by (nonlinear_arith)
                        requires
                            r < i,
                            0 <= es,
                    ;
                    assert(element_of(self.data@, esn, r) =~= element_of(before, esn, r));
                } else if r > i {
                    assert(i * es + es <= r * es) by (nonlinear_arith)
                        requires
                            r > i,
                            0 <= es,
                    ;
                    assert(element_of(self.data@, esn, r) =~= element_of(before, esn, r));
                } else {
                    assert(element_of(self.data@, esn, r) =~= bytes@);
                }
            }
            assert(self@ =~= old_array@.update(i as int, bytes@));
            self.lemma_inv_wf();
        }
        Ok(())
    }

    /// Removes element `i` and returns its bytes; the elements after it move down by one.
    /// Returns `None`, changing nothing, where `i` is not below the length.
    pub fn remove_bytes(&mut self, i: usize) -> (r: Option<Vec<u8>>)
        requires
            old(self).wf(),
        ensures
            final(self).wf(),
            final(self).item_size() == old(self).item_size(),
            final(self).reserved() == old(self).reserved(),
            i >= old(self)@.len() ==> r is None && final(self)@ == old(self)@,
            i < old(self)@.len() ==> r is Some && r->0@ == old(self)@[i as int] && final(self)@
                == old(self)@.remove(i as int),
    {
        if i >= self.length {
            return None;
        }
        let out = self.copy_element(i);
        let es = self.element_size;
        let last: usize = self.length - 1;
        proof {
            self.lemma_bytes_fit();
            lemma_element_bounds(self.length as int, es as int, i as int);
            lemma_element_bounds(self.length as int, es as int, last as int);
        }
        let start: usize = i * es;
        let end: usize = last * es;
        proof {
            assert(start <= end) by (nonlinear_arith)
                requires
                    i <= last,
                    0 <= es,
                    start == i * es,
                    end == last * es,
            ;
        }
        let ghost before = self.data@;
        let ghost old_array = *self;
        let mut j: usize = start;
        while j < end
            invariant
                old_array.inv(),
                self.length == old_array.length,
                self.capacity == old_array.capacity,
                self.element_size == old_array.element_size,
                before == old_array.data@,
                es == self.element_size,
                start <= j <= end,
                end + es == before.len(),
                before.len() <= isize::MAX,
                self.data@.len() == before.len(),
                forall|t: int|
                    0 <= t < before.len() ==> #[trigger] self.data@[t] == if start <= t < j {
                        before[t + es]
                    } else {
                        before[t]
                    },
            decreases end - j,
        {
            let b = self.data[j + es];
            self.data[j] = b;
            j = j + 1;
        }
        self.data.truncate(end);
        self.length = last;
        proof {
            let len = last as int;
            let esn = es as nat;
            assert forall|r: int| 0 <= r < len implies #[trigger] element_of(self.data@, esn, r)
                == element_of(before, esn, if r < i {
                r
            } else {
                r + 1
            }) by {
                lemma_element_bounds(len, es as int, r);
                lemma_element_bounds(len + 1, es as int, r + 1);
                if r < i {
                    assert(r * es + es <= i * es) by (nonlinear_arith)
                        requires
                            r < i,
                            0 <= es,
                    ;
                    assert(element_of(self.data@, esn, r) =~= element_of(before, esn, r));
                } else {
                    assert(i * es <= r * es) by (nonlinear_arith)
                        requires
                            r >= i,
                            0 <= es,
                    ;
                    assert(element_of(self.data@, esn, r) =~= element_of(before, esn, r + 1));
                }
            }
            assert(self@ =~= old_array@.remove(i as int));
            self.lemma_inv_wf();
        }
        Some(out)
    }

    /// Removes element `i` and returns its bytes; the last element takes its place.
    /// Returns `None`, changing nothing, where `i` is not below the length.
    pub fn swap_remove_bytes(&mut self, i: usize) -> (r: Option<Vec<u8>>)
        requires
            old(self).wf(),
        ensures
            final(self).wf(),
            final(self).item_size() == old(self).item_size(),
            final(self).reserved() == old(self).reserved(),
            i >= old(self)@.len() ==> r is None && final(self)@ == old(self)@,
            i < old(self)@.len() ==> r is Some && r->0@ == old(self)@[i as int] && final(self)@
                == old(self)@.update(i as int, old(self)@.last()).drop_last(),
    {
        if i >= self.length {
            return None;
        }
        let out = self.copy_element(i);
        let last: usize = self.length - 1;
        if i < last {
            let moved = self.copy_element(last);
            let _ = self.set_bytes(i, moved.as_slice());
        }
        let ghost before = self@;
        let es = self.element_size;
        proof {
            self.lemma_bytes_fit();
            lemma_element_bounds(self.length as int, es as int, last as int);
        }
        let end: usize = last * es;
        let ghost old_array = *self;
        self.data.truncate(end);
        self.length = last;
        proof {
            let len = last as int;
            let esn = es as nat;
            assert forall|r: int| 0 <= r < len implies #[trigger] element_of(self.data@, esn, r)
                == element_of(old_array.data@, esn, r) by {
                lemma_element_bounds(len, es as int, r);
                assert(element_of(self.data@, esn, r) =~= element_of(old_array.data@, esn, r));
            }
            assert(self@ =~= before.drop_last());
            self.lemma_inv_wf();
        }
        Some(out)
    }

    /// Removes the last element and returns its bytes, or `None` where the buffer is empty.
    pub fn pop_bytes(&mut self) -> (r: Option<Vec<u8>>)
        requires
            old(self).wf(),
        ensures
            final(self).wf(),
            final(self).item_size() == old(self).item_size(),
            final(self).reserved() == old(self).reserved(),
            old(self)@.len() == 0 ==> r is None && final(self)@ == old(self)@,
            old(self)@.len() > 0 ==> r is Some && r->0@ == old(self)@.last() && final(self)@
                == old(self)@.drop_last(),
    {
        if self.length == 0 {
            return None;
        }
        let ghost before = self@;
        let r = self.remove_bytes(self.length - 1);
        proof {
            assert(before.remove(before.len() - 1) =~= before.drop_last());
        }
        r
    }
}

} // verus!
