//! A binary min-heap of `(key, index)` entries, the priority order of the search's work queue.
use vstd::prelude::*;
use vstd::multiset::Multiset;

verus! {

broadcast use vstd::seq_lib::group_to_multiset_ensures, vstd::multiset::group_multiset_axioms;

/// The index of the parent of entry `i`.
pub open spec fn parent(i: int) -> int {
    (i - 1) / 2
}

/// A binary heap whose entries are ordered by their first component, least at the root.
pub struct MinHeap {
    entries: Vec<(i128, usize)>,
}

impl View for MinHeap {
    type V = Multiset<(i128, usize)>;

    closed spec fn view(&self) -> Multiset<(i128, usize)> {
        self.entries@.to_multiset()
    }
}

/// Each entry's key is at least its parent's.
spec fn heap_ordered(s: Seq<(i128, usize)>) -> bool {
    forall|i: int| 0 < i < s.len() ==> s[parent(i)].0 <= #[trigger] s[i].0
}

proof fn lemma_root_least(s: Seq<(i128, usize)>, i: int)
    requires
        heap_ordered(s),
        0 <= i < s.len(),
    ensures
        s[0].0 <= s[i].0,
    decreases i,
{
    if i > 0 {
        lemma_root_least(s, parent(i));
    }
}

proof fn lemma_update_multiset<A>(s: Seq<A>, i: int, x: A)
    requires
        0 <= i < s.len(),
    ensures
        s.update(i, x).to_multiset() =~= s.to_multiset().remove(s[i]).insert(x),
{
    let t = s.update(i, x);
    assert(t.remove(i) =~= s.remove(i));
    assert(t[i] == x);
    assert(t.to_multiset().count(x) > 0);
    assert(s.to_multiset().count(s[i]) > 0);
}

proof fn lemma_swap_multiset<A>(s: Seq<A>, i: int, j: int)
    requires
        0 <= i < s.len(),
        0 <= j < s.len(),
    ensures
        s.update(i, s[j]).update(j, s[i]).to_multiset() =~= s.to_multiset(),
{
    let u = s.update(i, s[j]);
    lemma_update_multiset(s, i, s[j]);
    lemma_update_multiset(u, j, s[i]);
    if i != j {
        assert(u[j] == s[j]);
        assert(s.to_multiset().count(s[j]) > 0);
    }
}

/// Entry `k` has no children in a heap of the sequence's length.
proof fn lemma_no_children(s: Seq<(i128, usize)>, k: int)
    requires
        0 <= k < s.len(),
        k >= s.len() / 2,
        forall|i: int| 0 < i < s.len() && parent(i) != k ==> s[parent(i)].0 <= #[trigger] s[i].0,
    ensures
        heap_ordered(s),
{
    assert forall|i: int| 0 < i < s.len() implies s[parent(i)].0 <= #[trigger] s[i].0 by {
        if parent(i) == k {
            assert(i >= 2 * k + 1);
        }
    }
}

/// Entry `k` is no greater than its least child `c`.
proof fn lemma_settled(s: Seq<(i128, usize)>, k: int, c: int)
    requires
        0 <= k < c < s.len(),
        c == 2 * k + 1 || c == 2 * k + 2,
        forall|j: int| 0 < j < s.len() && parent(j) == k ==> s[c].0 <= #[trigger] s[j].0,
        s[c].0 >= s[k].0,
        forall|i: int| 0 < i < s.len() && parent(i) != k ==> s[parent(i)].0 <= #[trigger] s[i].0,
    ensures
        heap_ordered(s),
{
    assert forall|i: int| 0 < i < s.len() implies s[parent(i)].0 <= #[trigger] s[i].0 by {
        if parent(i) == k {
            assert(s[c].0 <= s[i].0);
        }
    }
}

/// Swapping entry `k` with its least child `c`, when that child is smaller, moves the one place
/// where order may fail down to `c`.
proof fn lemma_sink_step(s: Seq<(i128, usize)>, t: Seq<(i128, usize)>, k: int, c: int)
    requires
        0 <= k < c < s.len(),
        c == 2 * k + 1 || c == 2 * k + 2,
        t == s.update(k, s[c]).update(c, s[k]),
        forall|j: int| 0 < j < s.len() && parent(j) == k ==> s[c].0 <= #[trigger] s[j].0,
        s[c].0 < s[k].0,
        forall|i: int| 0 < i < s.len() && parent(i) != k ==> s[parent(i)].0 <= #[trigger] s[i].0,
        k > 0 ==> forall|j: int| 0 < j < s.len() && parent(j) == k ==> s[parent(k)].0 <= #[trigger] s[j].0,
    ensures
        forall|i: int| 0 < i < t.len() && parent(i) != c ==> t[parent(i)].0 <= #[trigger] t[i].0,
        forall|d: int| 0 < d < t.len() && parent(d) == c ==> t[parent(c)].0 <= #[trigger] t[d].0,
{
    assert(parent(c) == k);
    assert forall|i: int| 0 < i < t.len() && parent(i) != c implies t[parent(i)].0 <= #[trigger] t[i].0 by {
        if i == c {
        } else if parent(i) == k {
            assert(s[c].0 <= s[i].0);
        } else if i == k {
            assert(s[parent(k)].0 <= s[c].0);
        } else {
            assert(t[i] == s[i]);
            assert(parent(i) != c);
            if parent(i) == k {
            } else {
                assert(t[parent(i)] == s[parent(i)]);
            }
        }
    }
    assert forall|d: int| 0 < d < t.len() && parent(d) == c implies t[parent(c)].0 <= #[trigger] t[d].0 by {
        assert(d != k && d != c);
        assert(t[d] == s[d]);
        assert(s[c].0 <= s[d].0);
    }
}

impl MinHeap {
    /// The entries are in heap order.
    pub closed spec fn wf(&self) -> bool {
        heap_ordered(self.entries@)
    }

    /// An empty heap.
    pub fn new() -> (r: MinHeap)
        ensures
            r.wf(),
            r@ =~= Multiset::empty(),
    {
        let r = MinHeap { entries: Vec::new() };
        assert(r.entries@ =~= Seq::<(i128, usize)>::empty());
        r
    }

    /// The number of entries.
    pub fn len(&self) -> (r: usize)
        ensures
            r == self@.len(),
    {
        self.entries.len()
    }

    fn swap(&mut self, i: usize, j: usize)
        requires
            i < old(self).entries.len(),
            j < old(self).entries.len(),
        ensures
            final(self).entries@ == old(self).entries@.update(i as int, old(self).entries@[j as int]).update(
                j as int,
                old(self).entries@[i as int],
            ),
            final(self)@ == old(self)@,
    {
        let a = self.entries[i];
        let b = self.entries[j];
        self.entries.set(i, b);
        self.entries.set(j, a);
        proof {
            lemma_swap_multiset(old(self).entries@, i as int, j as int);
        }
    }

    /// Adds `e`.
    pub fn push(&mut self, e: (i128, usize))
        requires
            old(self).wf(),
        ensures
            final(self).wf(),
            final(self)@ == old(self)@.insert(e),
    {
        self.entries.push(e);
        let mut k: usize = self.entries.len() - 1;
        assert(self@ == old(self)@.insert(e));
        while k > 0 && self.entries[(k - 1) / 2].0 > self.entries[k].0
            invariant
                k < self.entries.len(),
                self@ == old(self)@.insert(e),
                forall|i: int| 0 < i < self.entries.len() && i != k ==> self.entries[parent(i)].0 <= #[trigger] self.entries[i].0,
                k > 0 ==> forall|c: int|
                    0 < c < self.entries.len() && parent(c) == k ==> self.entries[parent(k as int)].0 <= #[trigger] self.entries[c].0,
            decreases k,
        {
            let p = (k - 1) / 2;
            let ghost s = self.entries@;
            self.swap(p, k);
            proof {
                let t = self.entries@;
                assert forall|i: int| 0 < i < t.len() && i != p implies t[parent(i)].0 <= #[trigger] t[i].0 by {
                    if i == k {
                    } else if parent(i) == k {
                        assert(s[parent(k as int)].0 <= s[i].0);
                    } else if parent(i) == p {
                        assert(s[p as int].0 <= s[i].0);
                    } else {
                    }
                }
                if p > 0 {
                    assert forall|c: int| 0 < c < t.len() && parent(c) == p implies t[parent(p as int)].0 <= #[trigger] t[c].0 by {
                        assert(s[parent(p as int)].0 <= s[p as int].0);
                        if c != k {
                            assert(s[p as int].0 <= s[c].0);
                        }
                    }
                }
            }
            k = p;
        }
    }

    /// Removes and returns an entry of least key.
    pub fn pop(&mut self) -> (r: (i128, usize))
        requires
            old(self).wf(),
            old(self)@.len() > 0,
        ensures
            final(self).wf(),
            old(self)@.contains(r),
            final(self)@ == old(self)@.remove(r),
            forall|e: (i128, usize)| old(self)@.contains(e) ==> r.0 <= e.0,
    {
        let ghost s0 = self.entries@;
        proof {
            assert forall|e: (i128, usize)| old(self)@.contains(e) implies s0[0].0 <= e.0 by {
                let i = choose|i: int| 0 <= i < s0.len() && s0[i] == e;
                lemma_root_least(s0, i);
            }
        }
        let top = self.entries[0];
        let last = self.entries.pop().unwrap();
        assert(self.entries@ == s0.drop_last());
        assert(s0.remove(s0.len() - 1) =~= s0.drop_last());
        if self.entries.len() == 0 {
            assert(self@ =~= old(self)@.remove(top));
            return top;
        }
        self.entries.set(0, last);
        proof {
            let d = s0.drop_last();
            lemma_update_multiset(d, 0, last);
            assert(d[0] == top);
            assert(self@ =~= old(self)@.remove(top));
        }
        let n = self.entries.len();
        let mut k: usize = 0;
        loop
            invariant
                n == self.entries.len(),
                k < n,
                self@ == old(self)@.remove(top),
                forall|i: int| 0 < i < n && parent(i) != k ==> self.entries[parent(i)].0 <= #[trigger] self.entries[i].0,
                k > 0 ==> forall|c: int|
                    0 < c < n && parent(c) == k ==> self.entries[parent(k as int)].0 <= #[trigger] self.entries[c].0,
            ensures
                heap_ordered(self.entries@),
                self@ == old(self)@.remove(top),
            decreases n - k,
        {
            if k >= n / 2 {
                proof {
                    lemma_no_children(self.entries@, k as int);
                }
                break;
            }
            let l = 2 * k + 1;
            let r = l + 1;
            let c = if r < n && self.entries[r].0 < self.entries[l].0 {
                r
            } else {
                l
            };
            assert forall|j: int| 0 < j < n && parent(j) == k implies self.entries[c as int].0 <= #[trigger] self.entries[j].0 by {
                assert(j == l || j == r);
            }
            if self.entries[c].0 >= self.entries[k].0 {
                proof {
                    lemma_settled(self.entries@, k as int, c as int);
                }
                break;
            }
            let ghost s = self.entries@;
            self.swap(k, c);
            proof {
                lemma_sink_step(s, self.entries@, k as int, c as int);
            }
            k = c;
        }
        top
    }
}

} // verus!
