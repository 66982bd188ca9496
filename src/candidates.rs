use vstd::prelude::*;

verus! {

/// `m` is the smallest positive member of `s`.
pub open spec fn is_least_positive(s: Set<int>, m: int) -> bool {
    &&& s.contains(m)
    &&& m > 0
    &&& forall|k: int| s.contains(k) && k > 0 ==> m <= k
}

/// The stride that a set of run lengths points to: its smallest positive
/// member `m`, provided that `m >= 2` and that every member is a multiple of
/// `m`; otherwise the failure value 1.
pub open spec fn stride_of(s: Set<int>) -> int {
    if exists|m: int| is_least_positive(s, m) {
        let m = choose|m: int| is_least_positive(s, m);
        if m >= 2 && (forall|k: int| s.contains(k) ==> #[trigger] (k % m) == 0) {
            m
        } else {
            1
        }
    } else {
        1
    }
}

/// The smallest positive member of a set is unique.
pub proof fn lemma_least_positive_unique(s: Set<int>, a: int, b: int)
    requires
        is_least_positive(s, a),
        is_least_positive(s, b),
    ensures
        a == b,
{
}

/// A set of distinct run lengths.
pub struct CandidateSet {
    items: Vec<u32>,
}

impl CandidateSet {
    /// The run lengths held.
    pub closed spec fn view(&self) -> Set<int> {
        Set::new(|n: int| exists|k: int| 0 <= k < self.items@.len() && self.items@[k] as int == n)
    }

    /// No length is held twice.
    pub closed spec fn wf(&self) -> bool {
        forall|i: int, j: int|
            0 <= i < self.items@.len() && 0 <= j < self.items@.len() && i != j
                ==> self.items@[i] != self.items@[j]
    }

    pub fn new() -> (r: CandidateSet)
        ensures
            r.wf(),
            r@ == Set::<int>::empty(),
    {
        let r = CandidateSet { items: Vec::new() };
        assert(r@ =~= Set::<int>::empty());
        r
    }

    /// Whether `n` is held.
    pub fn contains(&self, n: u32) -> (r: bool)
        ensures
            r == self@.contains(n as int),
    {
        let mut i: usize = 0;
        while i < self.items.len()
            invariant
                i <= self.items@.len(),
                forall|k: int| 0 <= k < i ==> self.items@[k] != n,
            decreases self.items@.len() - i,
        {
            if self.items[i] == n {
                assert(self@.contains(n as int)) by {
                    assert(self.items@[i as int] as int == n as int);
                }
                return true;
            }
            i = i + 1;
        }
        false
    }

    /// Adds `n`; a length already held is not added twice.
    pub fn insert(&mut self, n: u32)
        requires
            old(self).wf(),
        ensures
            final(self).wf(),
            final(self)@ == old(self)@.insert(n as int),
    {
        if !self.contains(n) {
            let ghost before = self.items@;
            self.items.push(n);
            assert(self.items@ == before.push(n));
            assert forall|m: int| #[trigger] self@.contains(m) == old(self)@.insert(n as int).contains(m) by {
                if old(self)@.contains(m) {
                    let k = choose|k: int| 0 <= k < before.len() && before[k] as int == m;
                    assert(self.items@[k] as int == m);
                }
                if m == n as int {
                    assert(self.items@[before.len() as int] as int == m);
                }
                if self@.contains(m) {
                    let k = choose|k: int| 0 <= k < self.items@.len() && self.items@[k] as int == m;
                    if k < before.len() {
                        assert(old(self)@.contains(m));
                    }
                }
            }
            assert(self@ =~= old(self)@.insert(n as int));
        } else {
            assert(self@ =~= old(self)@.insert(n as int));
        }
    }

    /// The number of lengths held.
    pub fn len(&self) -> (r: usize)
        requires
            self.wf(),
        ensures
            r as int == self@.len(),
    {
        proof { self.lemma_len(); }
        self.items.len()
    }

    proof fn lemma_len(&self)
        requires
            self.wf(),
        ensures
            self@.finite(),
            self@.len() == self.items@.len(),
    {
        let mapped = self.items@.map_values(|v: u32| v as int);
        assert(mapped.no_duplicates());
        assert(self@ =~= mapped.to_set()) by {
            assert forall|n: int| self@.contains(n) implies mapped.to_set().contains(n) by {
                let k = choose|k: int| 0 <= k < self.items@.len() && self.items@[k] as int == n;
                assert(mapped[k] == n);
            }
            assert forall|n: int| mapped.to_set().contains(n) implies self@.contains(n) by {
                let k = choose|k: int| 0 <= k < mapped.len() && mapped[k] == n;
                assert(self.items@[k] as int == n);
            }
        }
        mapped.unique_seq_to_set();
    }
}

/// Reduces a set of run lengths to one stride: its smallest positive member
/// when that is at least 2 and divides every member, else the failure value 1.
pub fn get_smallest_stride_phase2(strides: &CandidateSet) -> (r: u32)
    ensures
        r as int == stride_of(strides@),
{
    let n = strides.items.len();
    let ghost s = strides@;
    let ghost items = strides.items@;
    // smallest positive member
    let mut min: u32 = 0;
    let mut i: usize = 0;
    while i < n
        invariant
            n == items.len(),
            items == strides.items@,
            s == strides@,
            i <= n,
            min == 0 ==> forall|k: int| 0 <= k < i ==> items[k] == 0,
            min > 0 ==> exists|k: int| 0 <= k < i && items[k] == min,
            forall|k: int| 0 <= k < i && items[k] > 0 ==> min > 0 && min <= items[k],
        decreases n - i,
    {
        let v = strides.items[i];
        if v > 0 && (min == 0 || v < min) {
            min = v;
        }
        i = i + 1;
    }
    if min == 0 {
        assert(!exists|m: int| is_least_positive(s, m)) by {
            if exists|m: int| is_least_positive(s, m) {
                let m = choose|m: int| is_least_positive(s, m);
                let k = choose|k: int| 0 <= k < items.len() && items[k] as int == m;
                assert(items[k] == 0);
            }
        }
        return 1;
    }
    assert(is_least_positive(s, min as int)) by {
        let k0 = choose|k: int| 0 <= k < n && items[k] == min;
        assert(items[k0] as int == min as int);
        assert forall|m: int| s.contains(m) && m > 0 implies min as int <= m by {
            let k = choose|k: int| 0 <= k < items.len() && items[k] as int == m;
            assert(items[k] > 0);
        }
    }
    proof {
        let m = choose|m: int| is_least_positive(s, m);
        lemma_least_positive_unique(s, m, min as int);
    }
    if min == 1 {
        return 1;
    }
    let mut j: usize = 0;
    while j < n
        invariant
            n == items.len(),
            items == strides.items@,
            s == strides@,
            j <= n,
            min >= 2,
            is_least_positive(s, min as int),
            (choose|m: int| is_least_positive(s, m)) == min as int,
            forall|k: int| 0 <= k < j ==> (items[k] as int) % (min as int) == 0,
        decreases n - j,
    {
        if strides.items[j] % min != 0 {
            assert(s.contains(items[j as int] as int));
            assert(!(forall|k: int| s.contains(k) ==> #[trigger] (k % (min as int)) == 0));
            return 1;
        }
        j = j + 1;
    }
    assert forall|k: int| s.contains(k) implies #[trigger] (k % (min as int)) == 0 by {
        let q = choose|q: int| 0 <= q < items.len() && items[q] as int == k;
        assert((items[q] as int) % (min as int) == 0);
    }
    min
}

} // verus!
