//! A memo table for the states `(i, m)` of the page dynamic program, stored
//! densely: the state `(i, m)` sits at `m * stride + i`.
use vstd::prelude::*;

verus! {

/// Dense table with one slot per state `(i, m)`, `i < stride`, `m < rows`.
pub struct GridCache<T> {
    stride: usize,
    rows: usize,
    slots: Vec<Option<T>>,
}

/// Distinct states of the grid have distinct slots, and every slot lies in
/// the table.
proof fn lemma_slot_index(stride: int, rows: int, i1: int, m1: int, i2: int, m2: int)
    by (nonlinear_arith)
    requires
        0 <= i1 < stride,
        0 <= i2 < stride,
        0 <= m1 < rows,
        0 <= m2 < rows,
    ensures
        0 <= m1 * stride + i1 < rows * stride,
        m1 * stride + i1 == m2 * stride + i2 ==> (i1 == i2 && m1 == m2),
{
    if m1 < m2 {
        assert(m1 * stride + stride <= m2 * stride);
    } else if m2 < m1 {
        assert(m2 * stride + stride <= m1 * stride);
    }
    assert(m1 * stride + stride <= rows * stride);
}

impl<T> GridCache<T> {
    /// Number of photo positions per page count.
    pub closed spec fn stride(&self) -> int {
        self.stride as int
    }

    /// Number of page counts.
    pub closed spec fn rows(&self) -> int {
        self.rows as int
    }

    /// The value stored for the state `(i, m)`.
    pub closed spec fn slot(&self, i: int, m: int) -> Option<T> {
        self.slots@[m * self.stride + i]
    }

    /// The table has one slot per state.
    pub closed spec fn wf(&self) -> bool {
        &&& self.slots@.len() == self.stride * self.rows
        &&& self.slots@.len() <= usize::MAX
    }

    /// Creates an empty table for the states `(i, m)` with `i <= n` and
    /// `m <= page_max`.
    pub fn new(n: usize, page_max: usize) -> (r: Self)
        requires
            (n + 1) * (page_max + 1) <= usize::MAX,
        ensures
            r.wf(),
            r.stride() == n + 1,
            r.rows() == page_max + 1,
            forall|i: int, m: int| 0 <= i <= n && 0 <= m <= page_max ==> #[trigger] r.slot(i, m) is None,
    {
        assert(n + 1 <= (n + 1) * (page_max + 1) && page_max + 1 <= (n + 1) * (page_max + 1))
            by (nonlinear_arith);
        let stride = n + 1;
        let rows = page_max + 1;
        let size = stride * rows;
        let mut slots: Vec<Option<T>> = Vec::new();
        let mut k: usize = 0;
        while k < size
            invariant
                k <= size,
                slots@.len() == k,
                forall|j: int| 0 <= j < k ==> #[trigger] slots@[j] is None,
            decreases size - k,
        {
            slots.push(None);
            k = k + 1;
        }
        let r = GridCache { stride, rows, slots };
        proof {
            assert forall|i: int, m: int| 0 <= i <= n && 0 <= m <= page_max implies #[trigger] r.slot(i, m) is None by {
                lemma_slot_index(stride as int, rows as int, i, m, i, m);
            }
        }
        r
    }

    /// Returns the value stored for `state`, if any.
    pub fn get(&self, state: (usize, usize)) -> (r: Option<&T>)
        requires
            self.wf(),
            state.0 < self.stride(),
            state.1 < self.rows(),
        ensures
            r is Some <==> self.slot(state.0 as int, state.1 as int) is Some,
            r is Some ==> *r->0 == self.slot(state.0 as int, state.1 as int)->0,
    {
        let (i, m) = state;
        proof {
            lemma_slot_index(self.stride as int, self.rows as int, i as int, m as int, i as int, m as int);
            assert(0 <= m * self.stride <= m * self.stride + i) by (nonlinear_arith)
                requires
                    m >= 0,
                    self.stride >= 0,
                    i >= 0,
            ;
        }
        self.slots[m * self.stride + i].as_ref()
    }

    /// Stores `value` for `state`; every other state keeps its value.
    pub fn insert(&mut self, state: (usize, usize), value: T)
        requires
            old(self).wf(),
            state.0 < old(self).stride(),
            state.1 < old(self).rows(),
        ensures
            final(self).wf(),
            final(self).stride() == old(self).stride(),
            final(self).rows() == old(self).rows(),
            final(self).slot(state.0 as int, state.1 as int) == Some(value),
            forall|i: int, m: int|
                0 <= i < old(self).stride() && 0 <= m < old(self).rows() && (i != state.0 || m
                    != state.1) ==> #[trigger] final(self).slot(i, m) == old(self).slot(i, m),
    {
        let (i, m) = state;
        proof {
            lemma_slot_index(self.stride as int, self.rows as int, i as int, m as int, i as int, m as int);
            assert(0 <= m * self.stride <= m * self.stride + i) by (nonlinear_arith)
                requires
                    m >= 0,
                    self.stride >= 0,
                    i >= 0,
            ;
        }
        let idx = m * self.stride + i;
        self.slots.set(idx, Some(value));
        proof {
            assert forall|i2: int, m2: int|
                0 <= i2 < old(self).stride() && 0 <= m2 < old(self).rows() && (i2 != i || m2 != m) implies #[trigger] self.slot(i2, m2) == old(self).slot(i2, m2) by {
                lemma_slot_index(self.stride as int, self.rows as int, i as int, m as int, i2, m2);
                lemma_slot_index(self.stride as int, self.rows as int, i2, m2, i as int, m as int);
            }
        }
    }
}

} // verus!
