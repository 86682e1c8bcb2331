//! A binary min-heap keyed by `u64`, the priority queue behind the
//! shortest-path search.

use vstd::multiset::*;
use vstd::prelude::*;
use vstd::seq_lib::*;

verus! {

/// Index of the parent of heap slot `i`.
pub open spec fn parent(i: int) -> int {
    (i - 1) / 2
}

/// Every slot's key is at least its parent's key.
pub open spec fn heap_ordered<T>(s: Seq<(u64, T)>) -> bool {
    forall|i: int| 1 <= i < s.len() ==> (#[trigger] s[parent(i)]).0 <= s[i].0
}

/// Heap order holds everywhere but between slot `k` and its parent, and
/// the children of `k` are in order with the parent of `k`.
spec fn ordered_but_above<T>(s: Seq<(u64, T)>, k: int) -> bool {
    &&& forall|i: int| 1 <= i < s.len() && i != k ==> (#[trigger] s[parent(i)]).0 <= s[i].0
    &&& forall|i: int|
        1 <= i < s.len() && parent(i) == k && k >= 1 ==> s[parent(k)].0 <= (#[trigger] s[i]).0
}

/// Heap order holds everywhere but between slot `k` and its children, and
/// the children of `k` are in order with the parent of `k`.
spec fn ordered_but_below<T>(s: Seq<(u64, T)>, k: int) -> bool {
    &&& forall|i: int|
        1 <= i < s.len() && parent(i) != k ==> (#[trigger] s[parent(i)]).0 <= s[i].0
    &&& forall|i: int|
        1 <= i < s.len() && parent(i) == k && k >= 1 ==> s[parent(k)].0 <= (#[trigger] s[i]).0
}

/// Overwriting one slot replaces one occurrence in the multiset of entries.
proof fn lemma_update_multiset<E>(s: Seq<E>, i: int, e: E)
    requires
        0 <= i < s.len(),
    ensures
        s.update(i, e).to_multiset() =~= s.to_multiset().remove(s[i]).insert(e),
{
    broadcast use group_to_multiset_ensures;
    broadcast use group_multiset_axioms;

    let u = s.update(i, e);
    assert(u.remove(i) =~= s.remove(i));
    assert(u.remove(i).to_multiset() == u.to_multiset().remove(e));
    assert(s.remove(i).to_multiset() == s.to_multiset().remove(s[i]));
    assert(u.to_multiset().count(e) > 0) by {
        assert(u[i] == e);
        assert(u.contains(e));
    }
    assert(s.to_multiset().count(s[i]) > 0) by {
        assert(s.contains(s[i]));
    }
    assert forall|x: E| u.to_multiset().count(x) == s.to_multiset().remove(s[i]).insert(e).count(
        x,
    ) by {
        assert(u.to_multiset().remove(e).count(x) == s.to_multiset().remove(s[i]).count(x));
    }
}

/// Exchanging two slots keeps the multiset of entries.
proof fn lemma_swap_multiset<E>(s: Seq<E>, i: int, j: int)
    requires
        0 <= i < s.len(),
        0 <= j < s.len(),
    ensures
        s.update(i, s[j]).update(j, s[i]).to_multiset() =~= s.to_multiset(),
{
    broadcast use group_to_multiset_ensures;
    broadcast use group_multiset_axioms;

    let a = s.update(i, s[j]);
    lemma_update_multiset(s, i, s[j]);
    lemma_update_multiset(a, j, s[i]);
    assert(s.to_multiset().count(s[i]) > 0) by {
        assert(s.contains(s[i]));
    }
    assert(s.to_multiset().count(s[j]) > 0) by {
        assert(s.contains(s[j]));
    }
    if i == j {
        assert(a.update(j, s[i]) =~= s);
    } else {
        assert(a[j] == s[j]);
    }
}

/// Exchanges slots `i` and `j`.
fn swap_slots<T: Copy>(data: &mut Vec<(u64, T)>, i: usize, j: usize)
    requires
        i < old(data)@.len(),
        j < old(data)@.len(),
    ensures
        final(data)@ == old(data)@.update(i as int, old(data)@[j as int]).update(
            j as int,
            old(data)@[i as int],
        ),
        final(data)@.to_multiset() == old(data)@.to_multiset(),
{
    let a = data[i];
    let b = data[j];
    data.set(i, b);
    data.set(j, a);
    proof {
        lemma_swap_multiset(old(data)@, i as int, j as int);
    }
}

/// Moves the entry at `start` towards the root until its parent is no larger.
fn sift_up<T: Copy>(data: &mut Vec<(u64, T)>, start: usize)
    requires
        start < old(data)@.len(),
        ordered_but_above(old(data)@, start as int),
    ensures
        final(data)@.to_multiset() == old(data)@.to_multiset(),
        final(data)@.len() == old(data)@.len(),
        heap_ordered(final(data)@),
{
    let mut k = start;
    while k > 0
        invariant
            k < data@.len(),
            data@.len() == old(data)@.len(),
            ordered_but_above(data@, k as int),
            data@.to_multiset() == old(data)@.to_multiset(),
        ensures
            data@.len() == old(data)@.len(),
            data@.to_multiset() == old(data)@.to_multiset(),
            heap_ordered(data@),
        decreases k,
    {
        let p = (k - 1) / 2;
        if data[p].0 <= data[k].0 {
            break ;
        }
        let ghost before = data@;
        swap_slots(data, p, k);
        proof {
            assert forall|i: int| 1 <= i < data@.len() && i != p implies (#[trigger] data@[parent(
                i,
            )]).0 <= data@[i].0 by {
                if i == k {
                } else if parent(i) == k {
                    assert(before[parent(k as int)].0 <= before[i].0);
                } else if parent(i) == p {
                    assert(before[parent(i)].0 <= before[i].0);
                } else {
                    assert(before[parent(i)].0 <= before[i].0);
                }
            }
            assert forall|i: int|
                1 <= i < data@.len() && parent(i) == p && p >= 1 implies data@[parent(p as int)].0
                <= (#[trigger] data@[i]).0 by {
                assert(before[parent(p as int)].0 <= before[p as int].0);
                if i == k {
                } else {
                    assert(before[parent(i)].0 <= before[i].0);
                }
            }
        }
        k = p;
    }
}

/// Moves the entry at the root towards the leaves until no child is smaller.
fn sift_down<T: Copy>(data: &mut Vec<(u64, T)>)
    requires
        old(data)@.len() > 0,
        ordered_but_below(old(data)@, 0),
    ensures
        final(data)@.to_multiset() == old(data)@.to_multiset(),
        final(data)@.len() == old(data)@.len(),
        heap_ordered(final(data)@),
{
    let n = data.len();
    let mut k: usize = 0;
    loop
        invariant
            k < n,
            n == data@.len(),
            ordered_but_below(data@, k as int),
            data@.to_multiset() == old(data)@.to_multiset(),
        ensures
            n == data@.len(),
            data@.to_multiset() == old(data)@.to_multiset(),
            heap_ordered(data@),
        decreases n - k,
    {
        if k >= n / 2 {
            // no child
            proof {
                assert forall|i: int| 1 <= i < data@.len() implies (#[trigger] data@[parent(i)]).0
                    <= data@[i].0 by {
                    assert(parent(i) != k);
                }
            }
            break ;
        }
        let left = 2 * k + 1;
        if left >= n {
            proof {
                assert forall|i: int| 1 <= i < data@.len() implies (#[trigger] data@[parent(i)]).0
                    <= data@[i].0 by {
                    assert(parent(i) != k);
                }
            }
            break ;
        }
        let right = left + 1;
        let mut child = left;
        if right < n && data[right].0 < data[left].0 {
            child = right;
        }
        if data[k].0 <= data[child].0 {
            proof {
                assert forall|i: int| 1 <= i < data@.len() implies (#[trigger] data@[parent(i)]).0
                    <= data@[i].0 by {
                    if parent(i) == k {
                        assert(i == left || i == right);
                    }
                }
            }
            break ;
        }
        let ghost before = data@;
        swap_slots(data, k, child);
        proof {
            assert forall|i: int|
                1 <= i < data@.len() && parent(i) != child implies (#[trigger] data@[parent(
                i,
            )]).0 <= data@[i].0 by {
                if parent(i) == k {
                    assert(i == left || i == right);
                } else if i == k {
                    assert(k >= 1);
                    assert(parent(child as int) == k);
                    assert(before[parent(k as int)].0 <= before[child as int].0);
                } else {
                    assert(before[parent(i)].0 <= before[i].0);
                }
            }
            assert forall|i: int|
                1 <= i < data@.len() && parent(i) == child && child >= 1 implies data@[parent(
                child as int,
            )].0 <= (#[trigger] data@[i]).0 by {
                assert(before[parent(i)].0 <= before[i].0);
            }
        }
        k = child;
    }
}

/// A priority queue of `(key, item)` entries that hands out a smallest key
/// first.
pub struct MinHeap<T> {
    data: Vec<(u64, T)>,
}

impl<T> View for MinHeap<T> {
    type V = Multiset<(u64, T)>;

    /// The entries held, without order.
    closed spec fn view(&self) -> Multiset<(u64, T)> {
        self.data@.to_multiset()
    }
}

impl<T: Copy> MinHeap<T> {
    /// The heap order of the backing storage.
    pub closed spec fn wf(&self) -> bool {
        heap_ordered(self.data@)
    }

    /// Number of entries.
    pub closed spec fn spec_len(&self) -> nat {
        self.data@.len()
    }

    /// The number of entries is the size of the multiset.
    pub proof fn lemma_len(&self)
        ensures
            self.spec_len() == self@.len(),
    {
        broadcast use group_to_multiset_ensures;

    }

    /// An empty queue.
    pub fn new() -> (h: MinHeap<T>)
        ensures
            h.wf(),
            h@ == Multiset::<(u64, T)>::empty(),
            h.spec_len() == 0,
    {
        let h = MinHeap { data: Vec::new() };
        proof {
            broadcast use group_to_multiset_ensures;
            broadcast use group_multiset_axioms;

            assert(h.data@.to_multiset().len() == 0);
            assert(h.data@.to_multiset() =~= Multiset::<(u64, T)>::empty());
        }
        h
    }

    /// Number of entries.
    pub fn len(&self) -> (n: usize)
        ensures
            n == self.spec_len(),
            n == self@.len(),
    {
        proof {
            self.lemma_len();
        }
        self.data.len()
    }

    /// Whether the queue holds no entry.
    pub fn is_empty(&self) -> (b: bool)
        ensures
            b == (self@.len() == 0),
    {
        proof {
            self.lemma_len();
        }
        self.data.len() == 0
    }

    /// Adds the entry `(key, item)`.
    pub fn push(&mut self, key: u64, item: T)
        requires
            old(self).wf(),
        ensures
            final(self).wf(),
            final(self)@ == old(self)@.insert((key, item)),
            final(self).spec_len() == old(self).spec_len() + 1,
    {
        let ghost before = self.data@;
        self.data.push((key, item));
        proof {
            broadcast use group_to_multiset_ensures;

            assert(self.data@ == before.push((key, item)));
            assert(self.data@.to_multiset() =~= before.to_multiset().insert((key, item)));
            assert forall|i: int|
                1 <= i < self.data@.len() && i != before.len() implies (#[trigger] self.data@[parent(
                i,
            )]).0 <= self.data@[i].0 by {
                assert(before[parent(i)].0 <= before[i].0);
            }
        }
        let last = self.data.len() - 1;
        sift_up(&mut self.data, last);
    }

    /// Removes and returns an entry whose key is smallest, or `None` when
    /// the queue is empty.
    pub fn pop(&mut self) -> (r: Option<(u64, T)>)
        requires
            old(self).wf(),
        ensures
            final(self).wf(),
            old(self)@.len() == 0 ==> r is None && final(self)@ == old(self)@,
            old(self)@.len() > 0 ==> r is Some,
            r is Some ==> {
                let e = r->Some_0;
                &&& old(self)@.count(e) > 0
                &&& final(self)@ == old(self)@.remove(e)
                &&& final(self).spec_len() + 1 == old(self).spec_len()
                &&& forall|o: (u64, T)| old(self)@.count(o) > 0 ==> e.0 <= o.0
            },
    {
        proof {
            self.lemma_len();
        }
        let n = self.data.len();
        if n == 0 {
            return None;
        }
        let ghost before = self.data@;
        let top = self.data[0];
        let last = self.data[n - 1];
        proof {
            broadcast use group_to_multiset_ensures;
            broadcast use group_multiset_axioms;

            lemma_root_is_least(before);
            assert(before.contains(top));
            assert forall|o: (u64, T)| before.to_multiset().count(o) > 0 implies top.0 <= o.0 by {
                assert(before.contains(o));
            }
        }
        self.data.set(0, last);
        let ghost mid = self.data@;
        let popped = self.data.pop();
        proof {
            broadcast use group_to_multiset_ensures;
            broadcast use group_multiset_axioms;

            lemma_update_multiset(before, 0, last);
            assert(self.data@ =~= mid.remove(n as int - 1));
            assert(mid[n as int - 1] == last);
            assert(mid.to_multiset().count(last) > 0) by {
                assert(mid.contains(last));
            }
            assert(self.data@.to_multiset() =~= before.to_multiset().remove(top));
        }
        if n > 1 {
            proof {
                assert forall|i: int|
                    1 <= i < self.data@.len() && parent(i) != 0 implies (#[trigger] self.data@[parent(
                    i,
                )]).0 <= self.data@[i].0 by {
                    assert(before[parent(i)].0 <= before[i].0);
                }
            }
            sift_down(&mut self.data);
        }
        Some(top)
    }
}

/// In a heap-ordered sequence no key is below the root's.
proof fn lemma_root_is_least<T>(s: Seq<(u64, T)>)
    requires
        heap_ordered(s),
        s.len() > 0,
    ensures
        forall|i: int| 0 <= i < s.len() ==> s[0].0 <= (#[trigger] s[i]).0,
{
    assert forall|i: int| 0 <= i < s.len() implies s[0].0 <= (#[trigger] s[i]).0 by {
        lemma_root_below(s, i);
    }
}

proof fn lemma_root_below<T>(s: Seq<(u64, T)>, i: int)
    requires
        heap_ordered(s),
        0 <= i < s.len(),
    ensures
        s[0].0 <= s[i].0,
    decreases i,
{
    if i > 0 {
        assert(s[parent(i)].0 <= s[i].0);
        lemma_root_below(s, parent(i));
    }
}

} // verus!
