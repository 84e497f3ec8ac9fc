//! The merge of one batch as its sources are read line by line: the caller
//! offers the first record of each source, then after each record taken out
//! offers the next record of the source it came from.
use vstd::multiset::Multiset;
use vstd::prelude::*;
use crate::heap::{HeapEntry, MinHeap};
use crate::merge::KeyedRecord;

verus! {

/// Each pending entry belongs to a source marked pending, each source marked
/// pending has an entry, no two entries share a source, and while in order
/// no entry is below the last key taken out.
spec fn consistent_parts(heap: Multiset<(i64, Seq<char>, usize)>, pending: Seq<bool>, last: Option<i64>, ordered: bool) -> bool {
    &&& forall|x: (i64, Seq<char>, usize)| #[trigger] heap.contains(x) ==> x.2 < pending.len() && pending[x.2 as int]
    &&& forall|s: int| 0 <= s < pending.len() && #[trigger] pending[s] ==> exists|x: (i64, Seq<char>, usize)|
        #[trigger] heap.contains(x) && x.2 == s
    &&& forall|x: (i64, Seq<char>, usize), y: (i64, Seq<char>, usize)|
        #[trigger] heap.contains(x) && #[trigger] heap.contains(y) && x.2 == y.2 ==> x == y
    &&& forall|x: (i64, Seq<char>, usize)| #[trigger] heap.count(x) <= 1
    &&& ordered ==> forall|x: (i64, Seq<char>, usize)| #[trigger] heap.contains(x) && last is Some ==> last->Some_0 <= x.0
}

/// The pending records of a batch merge over a fixed number of sources: at
/// most one per source, taken out smallest key first.
pub struct LineMerger {
    heap: MinHeap,
    pending: Vec<bool>,
    last: Option<i64>,
    ordered: Ghost<bool>,
}

impl View for LineMerger {
    type V = Multiset<(i64, Seq<char>, usize)>;

    closed spec fn view(&self) -> Multiset<(i64, Seq<char>, usize)> {
        self.heap@
    }
}

impl LineMerger {
    #[verifier::type_invariant]
    spec fn consistent(&self) -> bool {
        consistent_parts(self.heap@, self.pending@, self.last, self.ordered@)
    }

    /// The number of sources merged.
    pub closed spec fn num_sources(&self) -> nat {
        self.pending@.len()
    }

    /// Source `s` has a record waiting in the merger.
    pub closed spec fn has_pending(&self, s: int) -> bool {
        self.pending@[s]
    }

    /// The key of the last record taken out, if any.
    pub closed spec fn last_key(&self) -> Option<i64> {
        self.last
    }

    /// Every record offered so far had a key no smaller than the last key
    /// taken out at that time. This holds when each source is sorted and
    /// each offer is the next record of the source last taken from.
    pub closed spec fn in_order(&self) -> bool {
        self.ordered@
    }

    /// A merger of `num_sources` sources with nothing pending.
    pub fn new(num_sources: usize) -> (m: LineMerger)
        ensures
            m@ == Multiset::<(i64, Seq<char>, usize)>::empty(),
            m.num_sources() == num_sources,
            forall|s: int| 0 <= s < num_sources ==> !m.has_pending(s),
            m.last_key() is None,
            m.in_order(),
    {
        let mut pending: Vec<bool> = Vec::new();
        let mut i: usize = 0;
        while i < num_sources
            invariant
                i <= num_sources,
                pending@.len() == i,
                forall|s: int| 0 <= s < i ==> !pending@[s],
            decreases num_sources - i,
        {
            pending.push(false);
            i = i + 1;
        }
        LineMerger { heap: MinHeap::new(), pending, last: None, ordered: Ghost(true) }
    }

    /// Whether source `source` has a record waiting.
    pub fn is_pending(&self, source: usize) -> (b: bool)
        requires
            source < self.num_sources(),
        ensures
            b == self.has_pending(source as int),
    {
        self.pending[source]
    }

    /// Adds the next record of source `source`, which has none waiting.
    pub fn offer(&mut self, source: usize, rec: KeyedRecord)
        requires
            source < old(self).num_sources(),
            !old(self).has_pending(source as int),
        ensures
            final(self)@ == old(self)@.insert((rec.sort_field, rec.line@, source)),
            final(self).num_sources() == old(self).num_sources(),
            final(self).has_pending(source as int),
            forall|s: int| 0 <= s < old(self).num_sources() && s != source ==>
                final(self).has_pending(s) == old(self).has_pending(s),
            final(self).last_key() == old(self).last_key(),
            final(self).in_order() == (old(self).in_order() && (old(self).last_key() matches Some(l)
                ==> l <= rec.sort_field)),
    {
        proof {
            use_type_invariant(&*self);
        }
        let ghost old_heap = self.heap@;
        assert(!old_heap.contains((rec.sort_field, rec.line@, source)));
        let mut me = LineMerger::new(0);
        std::mem::swap(&mut me, self);
        let LineMerger { mut heap, mut pending, last, ordered: old_ordered } = me;
        let ghost x = (rec.sort_field, rec.line@, source);
        heap.push(HeapEntry { sort_field: rec.sort_field, value: rec.line, index: source });
        pending.set(source, true);
        let ghost ordered = old_ordered@ && (last matches Some(l) ==> l <= x.0);
        proof {
            assert forall|y: (i64, Seq<char>, usize)| #[trigger] heap@.contains(y) implies y.2 < pending@.len()
                && pending@[y.2 as int] by {
                if y != x {
                    assert(old_heap.contains(y));
                }
            }
            assert forall|s: int| 0 <= s < pending@.len() && #[trigger] pending@[s] implies exists|y: (i64, Seq<char>, usize)|
                #[trigger] heap@.contains(y) && y.2 == s by {
                if s == source {
                    assert(heap@.contains(x));
                } else {
                    let y = choose|y: (i64, Seq<char>, usize)| #[trigger] old_heap.contains(y) && y.2 == s;
                    assert(heap@.contains(y));
                }
            }
            assert forall|y: (i64, Seq<char>, usize), z: (i64, Seq<char>, usize)|
                #[trigger] heap@.contains(y) && #[trigger] heap@.contains(z) && y.2 == z.2 implies y == z by {
                if y != x {
                    assert(old_heap.contains(y));
                }
                if z != x {
                    assert(old_heap.contains(z));
                }
            }
            assert forall|y: (i64, Seq<char>, usize)| #[trigger] heap@.count(y) <= 1 by {
                assert(old_heap.count(y) <= 1);
            }
            assert forall|y: (i64, Seq<char>, usize)| #[trigger] heap@.contains(y) && ordered && last is Some
                implies last->Some_0 <= y.0 by {
                if y != x {
                    assert(old_heap.contains(y));
                }
            }
        }
        assert(consistent_parts(heap@, pending@, last, ordered));
        *self = LineMerger { heap, pending, last, ordered: Ghost(ordered) };
    }

    /// Takes out a pending record of smallest key; the index in it names the
    /// source whose next record is to be offered. `None` once nothing is
    /// pending. While the offers are in order, keys come out never
    /// decreasing.
    pub fn next_record(&mut self) -> (r: Option<HeapEntry>)
        ensures
            final(self).num_sources() == old(self).num_sources(),
            final(self).in_order() == old(self).in_order(),
            r is None <==> old(self)@.len() == 0,
            r is None ==> final(self)@ == old(self)@ && final(self).last_key() == old(self).last_key()
                && forall|s: int| 0 <= s < old(self).num_sources() ==> !old(self).has_pending(s)
                    && !final(self).has_pending(s),
            r matches Some(e) ==> {
                &&& old(self)@.contains(e@)
                &&& final(self)@ == old(self)@.remove(e@)
                &&& forall|x: (i64, Seq<char>, usize)| old(self)@.contains(x) ==> e.sort_field <= x.0
                &&& e.index < old(self).num_sources()
                &&& old(self).has_pending(e.index as int)
                &&& !final(self).has_pending(e.index as int)
                &&& forall|s: int| 0 <= s < old(self).num_sources() && s != e.index ==>
                    final(self).has_pending(s) == old(self).has_pending(s)
                &&& final(self).last_key() == Some(e.sort_field)
                &&& old(self).in_order() ==> (old(self).last_key() matches Some(l) ==> l <= e.sort_field)
            },
    {
        proof {
            use_type_invariant(&*self);
        }
        let ghost old_heap = self.heap@;
        if self.heap.is_empty() {
            proof {
                assert forall|s: int| 0 <= s < self.pending@.len() implies !self.pending@[s] by {
                    if self.pending@[s] {
                        let y = choose|y: (i64, Seq<char>, usize)| #[trigger] old_heap.contains(y) && y.2 == s;
                    }
                }
            }
            return None;
        }
        let mut me = LineMerger::new(0);
        std::mem::swap(&mut me, self);
        let LineMerger { mut heap, mut pending, last, ordered } = me;
        let popped = heap.pop_min();
        match popped {
            None => {
                *self = LineMerger { heap, pending, last, ordered };
                None
            },
            Some(e) => {
                let ghost ev = e@;
                pending.set(e.index, false);
                proof {
                    assert(old_heap.contains(ev));
                    assert forall|y: (i64, Seq<char>, usize)| #[trigger] heap@.contains(y) implies y.2 < pending@.len()
                        && pending@[y.2 as int] by {
                        assert(old_heap.contains(y));
                        if y.2 == ev.2 {
                            assert(y == ev);
                            assert(old_heap.count(ev) <= 1);
                        }
                    }
                    assert forall|s: int| 0 <= s < pending@.len() && #[trigger] pending@[s] implies exists|y: (i64, Seq<char>, usize)|
                        #[trigger] heap@.contains(y) && y.2 == s by {
                        let y = choose|y: (i64, Seq<char>, usize)| #[trigger] old_heap.contains(y) && y.2 == s;
                        assert(y != ev);
                        assert(heap@.contains(y));
                    }
                    assert forall|y: (i64, Seq<char>, usize), z: (i64, Seq<char>, usize)|
                        #[trigger] heap@.contains(y) && #[trigger] heap@.contains(z) && y.2 == z.2 implies y == z by {
                        assert(old_heap.contains(y));
                        assert(old_heap.contains(z));
                    }
                    assert forall|y: (i64, Seq<char>, usize)| #[trigger] heap@.count(y) <= 1 by {
                        assert(old_heap.count(y) <= 1);
                    }
                    assert forall|y: (i64, Seq<char>, usize)| #[trigger] heap@.contains(y) implies ev.0 <= y.0 by {
                        assert(old_heap.contains(y));
                    }
                }
                assert(consistent_parts(heap@, pending@, Some(e.sort_field), ordered@));
                *self = LineMerger { heap, pending, last: Some(e.sort_field), ordered };
                Some(e)
            },
        }
    }

    /// Whether no record is pending.
    pub fn is_empty(&self) -> (b: bool)
        ensures
            b <==> self@.len() == 0,
    {
        self.heap.is_empty()
    }
}

} // verus!
