//! The k-way merge of sorted runs of records into one sorted sequence.
use vstd::multiset::Multiset;
use vstd::prelude::*;
use crate::heap::{HeapEntry, MinHeap};

verus! {

broadcast use vstd::seq_lib::group_to_multiset_ensures;

/// A record line with the sort key read from it.
#[derive(Debug)]
pub struct KeyedRecord {
    pub sort_field: i64,
    pub line: String,
}

impl View for KeyedRecord {
    type V = (i64, Seq<char>);

    open spec fn view(&self) -> (i64, Seq<char>) {
        (self.sort_field, self.line@)
    }
}

/// The views of a sequence of records.
pub open spec fn record_views(s: Seq<KeyedRecord>) -> Seq<(i64, Seq<char>)> {
    s.map_values(|r: KeyedRecord| r@)
}

/// The views of a list of runs.
pub open spec fn runs_view(runs: Seq<Vec<KeyedRecord>>) -> Seq<Seq<(i64, Seq<char>)>> {
    runs.map_values(|r: Vec<KeyedRecord>| record_views(r@))
}

/// The keys of `s` never decrease.
pub open spec fn sorted_by_key(s: Seq<(i64, Seq<char>)>) -> bool {
    forall|i: int, j: int| 0 <= i <= j < s.len() ==> s[i].0 <= s[j].0
}

/// Every run is sorted by key.
pub open spec fn all_sorted(runs: Seq<Seq<(i64, Seq<char>)>>) -> bool {
    forall|i: int| 0 <= i < runs.len() ==> sorted_by_key(#[trigger] runs[i])
}

/// All records of the first `n` runs, as a multiset.
pub open spec fn all_records(runs: Seq<Seq<(i64, Seq<char>)>>, n: nat) -> Multiset<(i64, Seq<char>)>
    decreases n,
{
    if n == 0 {
        Multiset::empty()
    } else {
        all_records(runs, (n - 1) as nat).add(runs[n - 1].to_multiset())
    }
}

/// All records of all runs, as a multiset.
pub open spec fn union_of(runs: Seq<Seq<(i64, Seq<char>)>>) -> Multiset<(i64, Seq<char>)> {
    all_records(runs, runs.len())
}

/// The records of `out` tagged `i`, in their order; `tags[j]` is the run
/// that `out[j]` came from.
pub open spec fn from_run(out: Seq<(i64, Seq<char>)>, tags: Seq<usize>, i: int) -> Seq<(i64, Seq<char>)>
    decreases out.len(),
{
    if out.len() == 0 || tags.len() == 0 {
        Seq::empty()
    } else {
        let rest = from_run(out.drop_last(), tags.drop_last(), i);
        if tags.last() == i {
            rest.push(out.last())
        } else {
            rest
        }
    }
}

/// `out` interleaves the runs: with `tags` naming the run of each record,
/// the records of each run appear in `out` in the run's own order.
pub open spec fn interleaves(out: Seq<(i64, Seq<char>)>, runs: Seq<Seq<(i64, Seq<char>)>>, tags: Seq<usize>) -> bool {
    &&& tags.len() == out.len()
    &&& forall|i: int| 0 <= i < runs.len() ==> #[trigger] from_run(out, tags, i) == runs[i]
}

spec fn entry_at(runs: Seq<Seq<(i64, Seq<char>)>>, i: int, c: int) -> (i64, Seq<char>, usize) {
    (runs[i][c].0, runs[i][c].1, i as usize)
}

/// The entries that the heap holds when source `i` has had `c[i]` records
/// written: the next record of each source that is not exhausted.
spec fn pending(runs: Seq<Seq<(i64, Seq<char>)>>, c: Seq<usize>, n: nat) -> Multiset<(i64, Seq<char>, usize)>
    decreases n,
{
    if n == 0 {
        Multiset::empty()
    } else {
        let i = n - 1;
        let rest = pending(runs, c, (n - 1) as nat);
        if c[i] < runs[i].len() {
            rest.insert(entry_at(runs, i, c[i] as int))
        } else {
            rest
        }
    }
}

/// The records already written when source `i` has had `c[i]` records written.
spec fn emitted(runs: Seq<Seq<(i64, Seq<char>)>>, c: Seq<usize>, n: nat) -> Multiset<(i64, Seq<char>)>
    decreases n,
{
    if n == 0 {
        Multiset::empty()
    } else {
        emitted(runs, c, (n - 1) as nat).add(runs[n - 1].take(c[n - 1] as int).to_multiset())
    }
}

/// The number of records not yet written.
spec fn remaining(runs: Seq<Seq<(i64, Seq<char>)>>, c: Seq<usize>, n: nat) -> int
    decreases n,
{
    if n == 0 {
        0
    } else {
        remaining(runs, c, (n - 1) as nat) + (runs[n - 1].len() - c[n - 1])
    }
}

spec fn cursors_ok(runs: Seq<Seq<(i64, Seq<char>)>>, c: Seq<usize>) -> bool {
    &&& c.len() == runs.len()
    &&& runs.len() <= usize::MAX
    &&& forall|i: int| 0 <= i < runs.len() ==> c[i] <= #[trigger] runs[i].len() <= usize::MAX
}

proof fn lemma_pending_member(runs: Seq<Seq<(i64, Seq<char>)>>, c: Seq<usize>, n: nat, x: (i64, Seq<char>, usize))
    requires
        cursors_ok(runs, c),
        n <= runs.len(),
        pending(runs, c, n).contains(x),
    ensures
        x.2 < n,
        c[x.2 as int] < runs[x.2 as int].len(),
        x == entry_at(runs, x.2 as int, c[x.2 as int] as int),
    decreases n,
{
    if n > 0 {
        let i = n - 1;
        if c[i] < runs[i].len() && x == entry_at(runs, i, c[i] as int) {
        } else {
            lemma_pending_member(runs, c, (n - 1) as nat, x);
        }
    }
}

proof fn lemma_pending_has(runs: Seq<Seq<(i64, Seq<char>)>>, c: Seq<usize>, n: nat, i: int)
    requires
        cursors_ok(runs, c),
        n <= runs.len(),
        0 <= i < n,
        c[i] < runs[i].len(),
    ensures
        pending(runs, c, n).contains(entry_at(runs, i, c[i] as int)),
    decreases n,
{
    if i < n - 1 {
        lemma_pending_has(runs, c, (n - 1) as nat, i);
    }
}

proof fn lemma_same_prefix(runs: Seq<Seq<(i64, Seq<char>)>>, c: Seq<usize>, d: Seq<usize>, n: nat)
    requires
        n <= runs.len(),
        n <= c.len(),
        n <= d.len(),
        forall|i: int| 0 <= i < n ==> c[i] == d[i],
    ensures
        pending(runs, c, n) == pending(runs, d, n),
        emitted(runs, c, n) == emitted(runs, d, n),
        remaining(runs, c, n) == remaining(runs, d, n),
    decreases n,
{
    if n > 0 {
        lemma_same_prefix(runs, c, d, (n - 1) as nat);
    }
}

proof fn lemma_advance(runs: Seq<Seq<(i64, Seq<char>)>>, c: Seq<usize>, n: nat, j: int)
    requires
        cursors_ok(runs, c),
        n <= runs.len(),
        0 <= j < n,
        c[j] < runs[j].len(),
    ensures
        ({
            let d = c.update(j, (c[j] + 1) as usize);
            let gone = pending(runs, c, n).remove(entry_at(runs, j, c[j] as int));
            &&& pending(runs, d, n) == if c[j] + 1 < runs[j].len() {
                gone.insert(entry_at(runs, j, c[j] + 1))
            } else {
                gone
            }
            &&& emitted(runs, d, n) == emitted(runs, c, n).insert(runs[j][c[j] as int])
            &&& remaining(runs, d, n) == remaining(runs, c, n) - 1
        }),
    decreases n,
{
    let d = c.update(j, (c[j] + 1) as usize);
    let e = entry_at(runs, j, c[j] as int);
    if j == n - 1 {
        lemma_same_prefix(runs, c, d, (n - 1) as nat);
        assert(runs[j].take(c[j] + 1) =~= runs[j].take(c[j] as int).push(runs[j][c[j] as int]));
        vstd::seq_lib::to_multiset_build(runs[j].take(c[j] as int), runs[j][c[j] as int]);
        assert(d[j] == c[j] + 1);
        assert(pending(runs, c, n).remove(e) =~= pending(runs, c, (n - 1) as nat));
        assert(emitted(runs, d, n) =~= emitted(runs, c, n).insert(runs[j][c[j] as int]));
    } else {
        lemma_advance(runs, c, (n - 1) as nat, j);
        lemma_pending_has(runs, c, (n - 1) as nat, j);
        let i = n - 1;
        assert(d[i] == c[i]);
        let gone = pending(runs, c, n).remove(e);
        if c[j] + 1 < runs[j].len() {
            assert(pending(runs, d, n) =~= gone.insert(entry_at(runs, j, c[j] + 1)));
        } else {
            assert(pending(runs, d, n) =~= gone);
        }
        assert(emitted(runs, d, n) =~= emitted(runs, c, n).insert(runs[j][c[j] as int]));
    }
}

proof fn lemma_start(runs: Seq<Seq<(i64, Seq<char>)>>, c: Seq<usize>, n: nat)
    requires
        n <= runs.len(),
        n <= c.len(),
        forall|i: int| 0 <= i < n ==> c[i] == 0,
    ensures
        emitted(runs, c, n) == Multiset::<(i64, Seq<char>)>::empty(),
        remaining(runs, c, n) >= 0,
    decreases n,
{
    if n > 0 {
        lemma_start(runs, c, (n - 1) as nat);
        assert(runs[n - 1].take(0) =~= Seq::<(i64, Seq<char>)>::empty());
        assert(emitted(runs, c, n) =~= Multiset::<(i64, Seq<char>)>::empty());
    }
}

proof fn lemma_remaining_nonneg(runs: Seq<Seq<(i64, Seq<char>)>>, c: Seq<usize>, n: nat)
    requires
        cursors_ok(runs, c),
        n <= runs.len(),
    ensures
        remaining(runs, c, n) >= 0,
    decreases n,
{
    if n > 0 {
        lemma_remaining_nonneg(runs, c, (n - 1) as nat);
    }
}

proof fn lemma_finished(runs: Seq<Seq<(i64, Seq<char>)>>, c: Seq<usize>, n: nat)
    requires
        cursors_ok(runs, c),
        n <= runs.len(),
        pending(runs, c, n).len() == 0,
    ensures
        emitted(runs, c, n) == all_records(runs, n),
        forall|i: int| 0 <= i < n ==> c[i] == runs[i].len(),
    decreases n,
{
    if n > 0 {
        let i = n - 1;
        if c[i] < runs[i].len() {
            lemma_pending_has(runs, c, n, i);
        }
        assert(pending(runs, c, (n - 1) as nat).len() == 0);
        lemma_finished(runs, c, (n - 1) as nat);
        assert(runs[i].take(c[i] as int) =~= runs[i]);
    }
}

/// Merges sorted runs into one sequence: repeatedly writes the pending
/// record of smallest key, then takes the next record of the run it came
/// from. The output holds exactly the records of all runs, keeps the order
/// of each run, is sorted when every run is, and is the run itself when
/// there is only one.
pub fn merge_runs(runs: &Vec<Vec<KeyedRecord>>) -> (out: Vec<KeyedRecord>)
    ensures
        exists|tags: Seq<usize>| #[trigger] interleaves(record_views(out@), runs_view(runs@), tags),
        record_views(out@).to_multiset() == union_of(runs_view(runs@)),
        all_sorted(runs_view(runs@)) ==> sorted_by_key(record_views(out@)),
        runs@.len() == 1 ==> record_views(out@) == record_views(runs@[0]@),
{
    let ghost rv = runs_view(runs@);
    let k = runs.len();
    let mut cursor: Vec<usize> = Vec::new();
    let mut heap = MinHeap::new();
    let mut i: usize = 0;
    while i < k
        invariant
            k == runs@.len(),
            rv == runs_view(runs@),
            i <= k,
            cursor@.len() == i,
            forall|j: int| 0 <= j < i ==> cursor@[j] == 0,
            forall|j: int| 0 <= j < i ==> #[trigger] rv[j].len() <= usize::MAX,
            heap@ == pending(rv, cursor@, i as nat),
        decreases k - i,
    {
        let ghost before = cursor@;
        cursor.push(0);
        proof {
            lemma_same_prefix(rv, before, cursor@, i as nat);
        }
        let len_i = runs[i].len();
        assert(rv[i as int].len() == len_i);
        if len_i > 0 {
            let first = &runs[i][0];
            assert(rv[i as int][0] == runs@[i as int]@[0]@);
            heap.push(HeapEntry { sort_field: first.sort_field, value: first.line.clone(), index: i });
        }
        i = i + 1;
    }
    proof {
        lemma_start(rv, cursor@, k as nat);
        assert(cursors_ok(rv, cursor@));
        if k == 1 {
            assert(rv[0].take(0) =~= Seq::<(i64, Seq<char>)>::empty());
        }
    }
    let mut out: Vec<KeyedRecord> = Vec::new();
    let ghost mut tags: Seq<usize> = Seq::empty();
    assert(record_views(out@) =~= Seq::<(i64, Seq<char>)>::empty());
    assert forall|s: int| 0 <= s < k implies #[trigger] from_run(record_views(out@), tags, s) == rv[s].take(
        cursor@[s] as int) by {
        assert(rv[s].take(0) =~= Seq::<(i64, Seq<char>)>::empty());
    }
    while !heap.is_empty()
        invariant
            k == runs@.len(),
            rv == runs_view(runs@),
            cursors_ok(rv, cursor@),
            heap@ == pending(rv, cursor@, k as nat),
            record_views(out@).to_multiset() == emitted(rv, cursor@, k as nat),
            remaining(rv, cursor@, k as nat) >= 0,
            all_sorted(rv) ==> sorted_by_key(record_views(out@)),
            all_sorted(rv) && out@.len() > 0 ==> forall|s: int, j: int|
                0 <= s < k && cursor@[s] <= j < rv[s].len() ==> out@.last().sort_field <= #[trigger] rv[s][j].0,
            k == 1 ==> record_views(out@) == rv[0].take(cursor@[0] as int),
            tags.len() == out@.len(),
            forall|s: int| 0 <= s < k ==> #[trigger] from_run(record_views(out@), tags, s) == rv[s].take(
                cursor@[s] as int),
        decreases remaining(rv, cursor@, k as nat),
    {
        let ghost c = cursor@;
        let ghost old_out = record_views(out@);
        let popped = heap.pop_min();
        if let Some(e) = popped {
            proof {
                lemma_pending_member(rv, c, k as nat, e@);
                lemma_advance(rv, c, k as nat, e.index as int);
                if all_sorted(rv) {
                    assert forall|s: int, j: int|
                        0 <= s < k && c[s] <= j < rv[s].len() implies e.sort_field <= #[trigger] rv[s][j].0 by {
                        lemma_pending_has(rv, c, k as nat, s);
                        assert(sorted_by_key(rv[s]));
                    }
                }
            }
            let src = e.index;
            out.push(KeyedRecord { sort_field: e.sort_field, line: e.value });
            proof {
                let x = rv[src as int][c[src as int] as int];
                let ns = old_out.push(x);
                if all_sorted(rv) {
                    if old_out.len() > 0 {
                        assert(old_out[old_out.len() - 1] == out@[out@.len() - 2]@);
                        assert(out@[out@.len() - 2].sort_field <= rv[src as int][c[src as int] as int].0);
                    }
                    assert forall|a: int, b: int| 0 <= a <= b < ns.len() implies ns[a].0 <= ns[b].0 by {
                        if b == old_out.len() && a < b {
                            assert(old_out[a].0 <= old_out[old_out.len() - 1].0);
                        }
                    }
                }
            }
            let next = cursor[src] + 1;
            cursor.set(src, next);
            assert(record_views(out@) =~= old_out.push(rv[src as int][c[src as int] as int]));
            if next < runs[src].len() {
                let r = &runs[src][next];
                assert(rv[src as int][next as int] == runs@[src as int]@[next as int]@);
                heap.push(HeapEntry { sort_field: r.sort_field, value: r.line.clone(), index: src });
            }
            proof {
                let old_tags = tags;
                tags = tags.push(src);
                let x = rv[src as int][c[src as int] as int];
                assert(record_views(out@).drop_last() =~= old_out);
                assert(tags.drop_last() =~= old_tags);
                assert forall|s: int| 0 <= s < k implies #[trigger] from_run(record_views(out@), tags, s) == rv[s].take(
                    cursor@[s] as int) by {
                    assert(from_run(old_out, old_tags, s) == rv[s].take(c[s] as int));
                    assert(record_views(out@).last() == x);
                    assert(from_run(record_views(out@), tags, s) == if s == src as int {
                        from_run(old_out, old_tags, s).push(x)
                    } else {
                        from_run(old_out, old_tags, s)
                    });
                    if s == src as int {
                        assert(rv[s].take(cursor@[s] as int) =~= rv[s].take(c[s] as int).push(x));
                    } else {
                        assert(cursor@[s] == c[s]);
                    }
                }
                lemma_remaining_nonneg(rv, cursor@, k as nat);
                if k == 1 {
                    assert(rv[0].take(cursor@[0] as int) =~= rv[0].take(c[0] as int).push(rv[0][c[0] as int]));
                }
            }
        }
    }
    proof {
        lemma_finished(rv, cursor@, k as nat);
        assert forall|s: int| 0 <= s < k implies #[trigger] from_run(record_views(out@), tags, s) == rv[s] by {
            assert(rv[s].take(cursor@[s] as int) =~= rv[s]);
        }
        assert(interleaves(record_views(out@), rv, tags));
        if k == 1 {
            assert(rv[0].take(cursor@[0] as int) =~= rv[0]);
        }
    }
    out
}

} // verus!
