//! The pending records of one merge: at most one per open source, taken out
//! smallest sort key first.
use vstd::multiset::Multiset;
use vstd::prelude::*;
use std::cmp::Ordering;

verus! {

broadcast use vstd::seq_lib::group_to_multiset_ensures;

/// A record waiting to be written, with its sort key and the index of the
/// source it was read from.
#[derive(Debug)]
pub struct HeapEntry {
    pub sort_field: i64,
    pub value: String,
    pub index: usize,
}

impl View for HeapEntry {
    type V = (i64, Seq<char>, usize);

    open spec fn view(&self) -> (i64, Seq<char>, usize) {
        (self.sort_field, self.value@, self.index)
    }
}

impl HeapEntry {
    /// The order of entries in a min-heap: an entry of smaller key is the
    /// greater one; entries of equal key are equal whatever they hold.
    pub fn cmp(&self, other: &HeapEntry) -> (r: Ordering)
        ensures
            r == Ordering::Greater <==> self.sort_field < other.sort_field,
            r == Ordering::Less <==> self.sort_field > other.sort_field,
            r == Ordering::Equal <==> self.sort_field == other.sort_field,
    {
        if self.sort_field < other.sort_field {
            Ordering::Greater
        } else if self.sort_field > other.sort_field {
            Ordering::Less
        } else {
            Ordering::Equal
        }
    }
}

/// The views of a sequence of entries.
pub open spec fn entry_views(s: Seq<HeapEntry>) -> Seq<(i64, Seq<char>, usize)> {
    s.map_values(|e: HeapEntry| e@)
}

/// Exchanges the entries at positions `i` and `j`.
fn swap_entries(v: &mut Vec<HeapEntry>, i: usize, j: usize)
    requires
        i < j < old(v)@.len(),
    ensures
        final(v)@ == old(v)@.update(i as int, old(v)@[j as int]).update(j as int, old(v)@[i as int]),
{
    let s = v.as_mut_slice();
    let (left, right) = s.split_at_mut(j);
    let (_, mid) = left.split_at_mut(i);
    match (mid.first_mut(), right.first_mut()) {
        (Some(a), Some(b)) => std::mem::swap(a, b),
        _ => {},
    }
    assert(v@ =~= old(v)@.update(i as int, old(v)@[j as int]).update(j as int, old(v)@[i as int]));
}

/// The position of the parent of position `i` in a binary heap.
spec fn parent(i: int) -> int {
    (i - 1) / 2
}

/// No entry has a smaller key than its parent.
spec fn heap_order(s: Seq<HeapEntry>) -> bool {
    forall|i: int| 0 < i < s.len() ==> s[parent(i)].sort_field <= #[trigger] s[i].sort_field
}

/// Heap order holds except, perhaps, between `h` and its parent; the parent
/// of `h` is no greater than the children of `h`.
spec fn order_but_above(s: Seq<HeapEntry>, h: int) -> bool {
    &&& forall|i: int| 0 < i < s.len() && i != h ==> s[parent(i)].sort_field <= #[trigger] s[i].sort_field
    &&& h > 0 ==> forall|c: int| 0 < c < s.len() && parent(c) == h ==> s[parent(h)].sort_field <= #[trigger] s[c].sort_field
}

/// Heap order holds except, perhaps, between `h` and its children; the parent
/// of `h` is no greater than the children of `h`.
spec fn order_but_below(s: Seq<HeapEntry>, h: int) -> bool {
    &&& forall|i: int| 0 < i < s.len() && parent(i) != h ==> s[parent(i)].sort_field <= #[trigger] s[i].sort_field
    &&& h > 0 ==> forall|c: int| 0 < c < s.len() && parent(c) == h ==> s[parent(h)].sort_field <= #[trigger] s[c].sort_field
}

proof fn lemma_root_is_min(s: Seq<HeapEntry>, j: int)
    requires
        heap_order(s),
        0 <= j < s.len(),
    ensures
        s[0].sort_field <= s[j].sort_field,
    decreases j,
{
    if j > 0 {
        lemma_root_is_min(s, parent(j));
    }
}

proof fn lemma_swap_keeps_multiset(s: Seq<HeapEntry>, i: int, j: int)
    requires
        0 <= i < j < s.len(),
    ensures
        entry_views(s.update(i, s[j]).update(j, s[i])).to_multiset() == entry_views(s).to_multiset(),
{
    let w = entry_views(s);
    let w1 = w.update(i, w[j]);
    assert(entry_views(s.update(i, s[j]).update(j, s[i])) =~= w1.update(j, w[i]));
    vstd::seq_lib::to_multiset_update(w, i, w[j]);
    vstd::seq_lib::to_multiset_update(w1, j, w[i]);
    assert(w1.update(j, w[i]).to_multiset() =~= w.to_multiset());
}

/// Moves the entry at `i` up until its parent is no greater.
fn sift_up(v: &mut Vec<HeapEntry>, i: usize)
    requires
        i < old(v)@.len(),
        order_but_above(old(v)@, i as int),
    ensures
        heap_order(final(v)@),
        entry_views(final(v)@).to_multiset() == entry_views(old(v)@).to_multiset(),
        final(v)@.len() == old(v)@.len(),
{
    let mut h = i;
    while h > 0
        invariant
            h < v@.len(),
            v@.len() == old(v)@.len(),
            order_but_above(v@, h as int),
            entry_views(v@).to_multiset() == entry_views(old(v)@).to_multiset(),
        decreases h,
    {
        let p = (h - 1) / 2;
        if let Ordering::Greater = v[h].cmp(&v[p]) {
            let ghost s = v@;
            proof {
                lemma_swap_keeps_multiset(s, p as int, h as int);
            }
            swap_entries(v, p, h);
            assert(order_but_above(v@, p as int));
            h = p;
        } else {
            assert(heap_order(v@));
            return;
        }
    }
}

/// Moves the entry at `i` down until its children are no smaller.
fn sift_down(v: &mut Vec<HeapEntry>, i: usize)
    requires
        i < old(v)@.len(),
        order_but_below(old(v)@, i as int),
    ensures
        heap_order(final(v)@),
        entry_views(final(v)@).to_multiset() == entry_views(old(v)@).to_multiset(),
        final(v)@.len() == old(v)@.len(),
{
    let n = v.len();
    let mut h = i;
    loop
        invariant
            n == v@.len(),
            n == old(v)@.len(),
            h < n,
            order_but_below(v@, h as int),
            entry_views(v@).to_multiset() == entry_views(old(v)@).to_multiset(),
        decreases n - h,
    {
        if h >= n / 2 {
            assert(heap_order(v@));
            return;
        }
        assert(2 * h + 2 <= n);
        let l = 2 * h + 1;
        let r = 2 * h + 2;
        assert(parent(l as int) == h && parent(r as int) == h);
        let mut m = l;
        if r < n {
            if let Ordering::Greater = v[r].cmp(&v[l]) {
                m = r;
            }
        }
        if let Ordering::Greater = v[m].cmp(&v[h]) {
            let ghost s = v@;
            proof {
                lemma_swap_keeps_multiset(s, h as int, m as int);
            }
            swap_entries(v, h, m);
            assert(order_but_below(v@, m as int)) by {
                let t = v@;
                assert forall|c: int| 0 < c < t.len() && parent(c) != m as int implies t[parent(c)].sort_field
                    <= #[trigger] t[c].sort_field by {
                    if c == l as int || c == r as int {
                    } else if c == h as int {
                    } else if parent(c) == h as int {
                    }
                }
            }
            h = m;
        } else {
            assert(heap_order(v@));
            return;
        }
    }
}

/// A min-priority collection of entries, ordered by sort key: a binary heap.
pub struct MinHeap {
    entries: Vec<HeapEntry>,
}

impl View for MinHeap {
    type V = Multiset<(i64, Seq<char>, usize)>;

    closed spec fn view(&self) -> Multiset<(i64, Seq<char>, usize)> {
        entry_views(self.entries@).to_multiset()
    }
}

impl MinHeap {
    #[verifier::type_invariant]
    spec fn ordered(&self) -> bool {
        heap_order(self.entries@)
    }

    /// An empty collection.
    pub fn new() -> (h: MinHeap)
        ensures
            h@ == Multiset::<(i64, Seq<char>, usize)>::empty(),
    {
        let h = MinHeap { entries: Vec::new() };
        assert(entry_views(h.entries@) =~= Seq::<(i64, Seq<char>, usize)>::empty());
        h
    }

    /// The number of pending entries.
    pub fn len(&self) -> (n: usize)
        ensures
            n == self@.len(),
    {
        self.entries.len()
    }

    /// Whether no entry is pending.
    pub fn is_empty(&self) -> (b: bool)
        ensures
            b <==> self@.len() == 0,
    {
        self.entries.len() == 0
    }

    /// Adds an entry.
    pub fn push(&mut self, e: HeapEntry)
        ensures
            final(self)@ == old(self)@.insert(e@),
    {
        proof {
            use_type_invariant(&*self);
        }
        let mut v: Vec<HeapEntry> = Vec::new();
        std::mem::swap(&mut v, &mut self.entries);
        let ghost before = entry_views(v@);
        let n = v.len();
        v.push(e);
        assert(entry_views(v@) =~= before.push(e@));
        assert(order_but_above(v@, n as int));
        sift_up(&mut v, n);
        self.entries = v;
    }

    /// Takes out an entry of smallest sort key; `None` when nothing is pending.
    /// Among entries of equal key, which one comes out is left open.
    pub fn pop_min(&mut self) -> (r: Option<HeapEntry>)
        ensures
            r is None <==> old(self)@.len() == 0,
            r is None ==> final(self)@ == old(self)@,
            r matches Some(e) ==> {
                &&& old(self)@.contains(e@)
                &&& final(self)@ == old(self)@.remove(e@)
                &&& forall|x: (i64, Seq<char>, usize)| old(self)@.contains(x) ==> e.sort_field <= x.0
            },
    {
        proof {
            use_type_invariant(&*self);
        }
        if self.entries.len() == 0 {
            return None;
        }
        let mut v: Vec<HeapEntry> = Vec::new();
        std::mem::swap(&mut v, &mut self.entries);
        let ghost s = v@;
        let ghost views = entry_views(s);
        proof {
            assert forall|x: (i64, Seq<char>, usize)| views.to_multiset().contains(x) implies s[0].sort_field
                <= x.0 by {
                let j = choose|j: int| 0 <= j < views.len() && views[j] == x;
                lemma_root_is_min(s, j);
            }
        }
        let n = v.len();
        if n > 1 {
            proof {
                lemma_swap_keeps_multiset(s, 0, n - 1);
            }
            swap_entries(&mut v, 0, n - 1);
        }
        let ghost t = v@;
        let e = match v.pop() {
            Some(e) => e,
            None => {
                self.entries = v;
                return None;
            },
        };
        proof {
            assert(e == s[0]);
            assert(entry_views(t) =~= entry_views(v@).push(e@));
            assert(views[0] == e@);
            assert(views.to_multiset().contains(e@));
            assert(entry_views(v@).to_multiset() =~= views.to_multiset().remove(e@));
        }
        if v.len() > 0 {
            assert(order_but_below(v@, 0));
            sift_down(&mut v, 0);
        }
        self.entries = v;
        Some(e)
    }
}

} // verus!
