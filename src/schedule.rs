//! Batching of sources into merge rounds: grouping, intermediate file names,
//! and the decision between another round and the final merge.
use vstd::prelude::*;
use vstd::arithmetic::power::pow;
use itertools::Itertools;
use crate::decimal::{decimal, lemma_decimal_digits, lemma_decimal_injective, push_decimal};

verus! {

/// `s` cut into consecutive groups of `size` items, the last one shorter
/// when items run out.
pub open spec fn batches<T>(s: Seq<T>, size: nat) -> Seq<Seq<T>>
    decreases s.len(),
{
    if s.len() == 0 || size == 0 {
        Seq::empty()
    } else if s.len() <= size {
        seq![s]
    } else {
        seq![s.take(size as int)] + batches(s.skip(size as int), size)
    }
}

/// The number of groups of at most `size` that `n` items make: `n / size`
/// rounded up.
pub open spec fn batch_count(n: nat, size: nat) -> nat {
    if size == 0 {
        0
    } else {
        ((n + size - 1) / size as int) as nat
    }
}

/// The views of a list of lists of strings.
pub open spec fn groups_view(v: Seq<Vec<String>>) -> Seq<Seq<String>> {
    v.map_values(|g: Vec<String>| g@)
}

/// Relies on itertools::Itertools::chunks: consecutive chunks of `size`
/// items in their order, the last one shorter when items run out; it panics
/// when `size` is 0.
#[verifier::external_body]
fn chunks_of(items: Vec<String>, size: usize) -> (r: Vec<Vec<String>>)
    requires
        size > 0,
    ensures
        groups_view(r@) == batches(items@, size as nat),
{
    let chunks = items.into_iter().chunks(size);
    let r: Vec<Vec<String>> = chunks.into_iter().map(|c| c.collect()).collect();
    r
}

proof fn lemma_batch_count_step(n: nat, size: nat)
    requires
        n > size,
        size > 0,
    ensures
        batch_count(n, size) == 1 + batch_count((n - size) as nat, size),
{
    let m = (n - size) as int;
    let s = size as int;
    assert((m + s - 1 + s) / s == (m + s - 1) / s + 1) by {
        vstd::arithmetic::div_mod::lemma_div_plus_one(m + s - 1, s);
    }
}

/// Grouping keeps every item, in order, and makes `n / size` rounded up
/// groups, each of `size` items except possibly the last, none empty.
pub proof fn lemma_batches<T>(s: Seq<T>, size: nat)
    requires
        size > 0,
    ensures
        batches(s, size).len() == batch_count(s.len(), size),
        forall|i: int| 0 <= i < batches(s, size).len() ==> {
            &&& 0 < #[trigger] batches(s, size)[i].len() <= size
            &&& i * size < s.len()
            &&& i + 1 < batches(s, size).len() ==> batches(s, size)[i].len() == size
            &&& batches(s, size)[i] == s.subrange(i * size, if (i + 1) * size < s.len() {
                (i + 1) * size
            } else {
                s.len() as int
            })
        },
    decreases s.len(),
{
    let b = batches(s, size);
    let sz = size as int;
    if s.len() == 0 {
        assert(batch_count(0, size) == 0) by {
            vstd::arithmetic::div_mod::lemma_basic_div(sz - 1, sz);
        }
    } else if s.len() <= size {
        assert(batch_count(s.len(), size) == 1) by {
            let n = s.len() as int;
            vstd::arithmetic::div_mod::lemma_div_plus_one(n - 1, sz);
            vstd::arithmetic::div_mod::lemma_basic_div(n - 1, sz);
        }
        assert forall|i: int| 0 <= i < b.len() implies {
            &&& 0 < #[trigger] b[i].len() <= size
            &&& i * size < s.len()
            &&& i + 1 < b.len() ==> b[i].len() == size
            &&& b[i] == s.subrange(i * size, if (i + 1) * size < s.len() {
                (i + 1) * size
            } else {
                s.len() as int
            })
        } by {
            assert(i == 0);
            assert(s.subrange(0, s.len() as int) =~= s);
        }
    } else {
        let rest = s.skip(sz);
        lemma_batches(rest, size);
        lemma_batch_count_step(s.len(), size);
        let rb = batches(rest, size);
        assert(b == seq![s.take(sz)] + rb);
        assert forall|i: int| 0 <= i < b.len() implies {
            &&& 0 < #[trigger] b[i].len() <= size
            &&& i * size < s.len()
            &&& i + 1 < b.len() ==> b[i].len() == size
            &&& b[i] == s.subrange(i * size, if (i + 1) * size < s.len() {
                (i + 1) * size
            } else {
                s.len() as int
            })
        } by {
            if i == 0 {
                assert(b[0] == s.take(sz));
            } else {
                let j = i - 1;
                assert(b[i] == rb[j]);
                assert(i * sz == j * sz + sz) by(nonlinear_arith)
                    requires
                        j == i - 1,
                ;
                assert((i + 1) * sz == (j + 1) * sz + sz) by(nonlinear_arith)
                    requires
                        j == i - 1,
                ;
                assert(0 <= j * sz) by(nonlinear_arith)
                    requires
                        j >= 0,
                        sz > 0,
                ;
                let hi = if (j + 1) * sz < rest.len() {
                    (j + 1) * sz
                } else {
                    rest.len() as int
                };
                assert(rb[j] == rest.subrange(j * sz, hi));
                assert(rest.subrange(j * sz, hi) =~= s.subrange(j * sz + sz, hi + sz));
            }
        }
    }
}

/// Grouping neither drops nor repeats an item: the groups, put end to end,
/// are the items in their order.
pub proof fn lemma_batches_flatten<T>(s: Seq<T>, size: nat)
    requires
        size > 0,
    ensures
        batches(s, size).flatten() == s,
    decreases s.len(),
{
    let b = batches(s, size);
    if s.len() == 0 {
        assert(b.flatten() =~= s);
    } else if s.len() <= size {
        assert(b.drop_first() =~= Seq::<Seq<T>>::empty());
        assert(b.drop_first().flatten() =~= Seq::<T>::empty());
        assert(b.flatten() =~= s);
    } else {
        let rest = s.skip(size as int);
        lemma_batches_flatten(rest, size);
        assert(b.drop_first() =~= batches(rest, size));
        assert(b.flatten() =~= s);
    }
}

/// The inputs of each job of a list.
pub open spec fn job_inputs(jobs: Seq<BatchJob>) -> Seq<Seq<String>> {
    jobs.map_values(|j: BatchJob| j.inputs@)
}

/// The name of the intermediate file written by batch `batch_id` of round
/// `round`.
pub open spec fn intermediate_name(round: nat, batch_id: nat) -> Seq<char> {
    "merged_chunks_"@ + decimal(round) + "_"@ + decimal(batch_id) + ".ndjson.zst"@
}

/// Intermediate file names are unique over a whole run: two batches share
/// a name only if they are the same batch of the same round.
pub proof fn lemma_intermediate_names_unique(r1: nat, b1: nat, r2: nat, b2: nat)
    requires
        intermediate_name(r1, b1) == intermediate_name(r2, b2),
    ensures
        r1 == r2,
        b1 == b2,
{
    reveal_strlit("merged_chunks_");
    reveal_strlit("_");
    reveal_strlit(".ndjson.zst");
    let x = intermediate_name(r1, b1);
    let y = intermediate_name(r2, b2);
    let p = "merged_chunks_"@;
    let u = "_"@;
    let sfx = ".ndjson.zst"@;
    let (d1, d2) = (decimal(r1), decimal(r2));
    let (e1, e2) = (decimal(b1), decimal(b2));
    lemma_decimal_digits(r1);
    lemma_decimal_digits(r2);
    lemma_decimal_digits(b1);
    lemma_decimal_digits(b2);
    assert(x =~= p + d1 + u + e1 + sfx);
    assert(y =~= p + d2 + u + e2 + sfx);
    let pl = p.len() as int;
    assert(pl == 14);
    if d1.len() < d2.len() {
        let i = d1.len() as int;
        assert(x[pl + i] == '_');
        assert(y[pl + i] == d2[i]);
        let dd = choose|dd: int| 0 <= dd < 10 && d2[i] == crate::decimal::digit_char(dd);
        assert(false);
    } else if d2.len() < d1.len() {
        let i = d2.len() as int;
        assert(y[pl + i] == '_');
        assert(x[pl + i] == d1[i]);
        let dd = choose|dd: int| 0 <= dd < 10 && d1[i] == crate::decimal::digit_char(dd);
        assert(false);
    }
    assert(d1 =~= x.subrange(pl, pl + d1.len()));
    assert(d2 =~= y.subrange(pl, pl + d2.len()));
    lemma_decimal_injective(r1, r2);
    let q = pl + d1.len() + 1;
    assert(e1.len() == e2.len());
    assert(e1 =~= x.subrange(q, q + e1.len()));
    assert(e2 =~= y.subrange(q, q + e2.len()));
    lemma_decimal_injective(b1, b2);
}

/// The file name for the output of one batch of one round; distinct rounds
/// and batches get distinct names.
pub fn intermediate_file_name(round: usize, batch_id: usize) -> (r: String)
    ensures
        r@ == intermediate_name(round as nat, batch_id as nat),
{
    let mut s = String::new();
    s.append("merged_chunks_");
    push_decimal(&mut s, round as u64);
    s.append("_");
    push_decimal(&mut s, batch_id as u64);
    s.append(".ndjson.zst");
    assert(s@ =~= intermediate_name(round as nat, batch_id as nat));
    s
}

/// Where intermediate files go.
#[derive(Debug, PartialEq, Eq)]
pub enum WorkDir {
    /// The given directory, which exists and is empty.
    Use(String),
    /// The given directory, which does not exist yet and is to be created.
    Create(String),
    /// The system's scratch directory, as no directory was given.
    Scratch,
    /// The given directory exists and holds files: it is refused.
    NotEmpty(String),
}

/// Chooses the working directory: a given one must be empty if it exists and
/// is created if it does not; without one the system's scratch space is used.
pub fn choose_work_dir(given: Option<String>, exists: bool, is_empty: bool) -> (r: WorkDir)
    ensures
        match given {
            None => r == WorkDir::Scratch,
            Some(d) => if !exists {
                r matches WorkDir::Create(x) && x@ == d@
            } else if is_empty {
                r matches WorkDir::Use(x) && x@ == d@
            } else {
                r matches WorkDir::NotEmpty(x) && x@ == d@
            },
        },
{
    match given {
        None => WorkDir::Scratch,
        Some(d) => {
            if !exists {
                WorkDir::Create(d)
            } else if is_empty {
                WorkDir::Use(d)
            } else {
                WorkDir::NotEmpty(d)
            }
        },
    }
}

/// A merge of one batch of sources into one intermediate file.
#[derive(Debug)]
pub struct BatchJob {
    pub round: usize,
    pub batch_id: usize,
    pub inputs: Vec<String>,
    pub output: String,
}

/// Job `i` of round `round` takes `inputs` and writes the file named for
/// that round and batch.
pub open spec fn job_is(job: BatchJob, round: nat, i: nat, inputs: Seq<String>) -> bool {
    &&& job.round == round
    &&& job.batch_id == i
    &&& job.inputs@ == inputs
    &&& job.output@ == intermediate_name(round, i)
}

/// Splits the sources of one round into consecutive batches of
/// `batch_size`, the last one possibly smaller, and names the output of each.
pub fn plan_round(sources: Vec<String>, batch_size: usize, round: usize) -> (jobs: Vec<BatchJob>)
    requires
        batch_size > 0,
    ensures
        jobs@.len() == batches(sources@, batch_size as nat).len(),
        jobs@.len() == batch_count(sources@.len(), batch_size as nat),
        forall|i: int| 0 <= i < jobs@.len() ==> job_is(#[trigger] jobs@[i], round as nat, i as nat,
            batches(sources@, batch_size as nat)[i]),
        job_inputs(jobs@) == batches(sources@, batch_size as nat),
        job_inputs(jobs@).flatten() == sources@,
{
    proof {
        lemma_batches(sources@, batch_size as nat);
        lemma_batches_flatten(sources@, batch_size as nat);
    }
    let ghost groups_spec = batches(sources@, batch_size as nat);
    let groups = chunks_of(sources, batch_size);
    let ghost gv = groups@;
    let n_groups = groups.len();
    let mut jobs: Vec<BatchJob> = Vec::new();
    let mut id: usize = 0;
    for inputs in it: groups.into_iter()
        invariant
            it.seq() == gv,
            n_groups == gv.len(),
            groups_view(gv) == groups_spec,
            id == it.index(),
            jobs@.len() == id,
            forall|i: int| 0 <= i < id ==> job_is(#[trigger] jobs@[i], round as nat, i as nat, groups_spec[i]),
    {
        assert(id < n_groups);
        assert(inputs@ == groups_spec[id as int]);
        let output = intermediate_file_name(round, id);
        jobs.push(BatchJob { round, batch_id: id, inputs, output });
        id = id + 1;
    }
    assert(job_inputs(jobs@) =~= groups_spec);
    jobs
}

/// A configuration that the engine refuses before any merge work.
#[derive(Clone, Copy, Debug, PartialEq, Eq, Structural)]
pub enum ConfigError {
    /// The batch size is 0 or 1, which cannot reduce the number of sources.
    BatchTooSmall,
    /// No source file was given.
    NoInput,
}

/// The verdict on a configuration: the batch size must exceed 1 and at
/// least one source must be given; the batch size is judged first.
pub open spec fn config_verdict(num_sources: nat, batch_size: nat) -> Result<(), ConfigError> {
    if batch_size <= 1 {
        Err(ConfigError::BatchTooSmall)
    } else if num_sources == 0 {
        Err(ConfigError::NoInput)
    } else {
        Ok(())
    }
}

/// Checks the batch size and the number of sources before any work.
pub fn check_config(num_sources: usize, batch_size: usize) -> (r: Result<(), ConfigError>)
    ensures
        r == config_verdict(num_sources as nat, batch_size as nat),
{
    if batch_size <= 1 {
        Err(ConfigError::BatchTooSmall)
    } else if num_sources == 0 {
        Err(ConfigError::NoInput)
    } else {
        Ok(())
    }
}

/// What to do with the current sources.
pub enum Step {
    /// Run these batch merges (independent of each other); their outputs are
    /// the sources of the next step.
    Round(Vec<BatchJob>),
    /// Merge these sources, few enough for one batch, into the final output.
    Final(Vec<String>),
}

/// The round controller: more rounds while the sources outnumber the batch
/// size, then the final merge.
#[derive(Debug)]
pub struct RoundController {
    pub batch_size: usize,
    pub round: usize,
}

impl RoundController {
    /// The controller is usable: its batch size exceeds 1.
    pub open spec fn wf(&self) -> bool {
        self.batch_size > 1
    }

    /// Starts a run over `num_sources` sources, or refuses the configuration.
    pub fn start(num_sources: usize, batch_size: usize) -> (r: Result<RoundController, ConfigError>)
        ensures
            match r {
                Ok(c) => config_verdict(num_sources as nat, batch_size as nat) is Ok && c.wf()
                    && c.batch_size == batch_size && c.round == 0,
                Err(e) => config_verdict(num_sources as nat, batch_size as nat) == Err::<(), ConfigError>(e),
            },
    {
        match check_config(num_sources, batch_size) {
            Ok(()) => Ok(RoundController { batch_size, round: 0 }),
            Err(e) => Err(e),
        }
    }

    /// Decides the next step for the current sources: a round of batch
    /// merges while they outnumber the batch size, else the final merge.
    pub fn next_step(&mut self, sources: Vec<String>) -> (s: Step)
        requires
            old(self).wf(),
            old(self).round < usize::MAX,
        ensures
            final(self).batch_size == old(self).batch_size,
            sources@.len() > old(self).batch_size ==> {
                &&& final(self).round == old(self).round + 1
                &&& s matches Step::Round(jobs) && {
                    &&& jobs@.len() == batch_count(sources@.len(), old(self).batch_size as nat)
                    &&& jobs@.len() < sources@.len()
                    &&& job_inputs(jobs@).flatten() == sources@
                    &&& forall|i: int| 0 <= i < jobs@.len() ==> job_is(#[trigger] jobs@[i],
                        old(self).round as nat, i as nat, batches(sources@, old(self).batch_size as nat)[i])
                }
            },
            sources@.len() <= old(self).batch_size ==> {
                &&& final(self).round == old(self).round
                &&& s matches Step::Final(v) && v@ == sources@
            },
    {
        if sources.len() > self.batch_size {
            proof {
                lemma_round_reduces(sources@.len(), self.batch_size as nat);
            }
            let jobs = plan_round(sources, self.batch_size, self.round);
            self.round = self.round + 1;
            Step::Round(jobs)
        } else {
            Step::Final(sources)
        }
    }
}

/// A round over more sources than the batch size leaves fewer sources than
/// it found.
pub proof fn lemma_round_reduces(k: nat, b: nat)
    requires
        b > 1,
        k > b,
    ensures
        batch_count(k, b) < k,
{
    let ki = k as int;
    let bi = b as int;
    assert(ki + bi - 1 < bi * ki) by(nonlinear_arith)
        requires
            ki > bi,
            bi > 1,
    ;
    vstd::arithmetic::div_mod::lemma_multiply_divide_lt(ki + bi - 1, bi, ki);
}

/// The number of sources left after `r` rounds over `k` sources with batch
/// size `b`.
pub open spec fn count_after(k: nat, b: nat, r: nat) -> nat
    decreases r,
{
    if r == 0 {
        k
    } else {
        batch_count(count_after(k, b, (r - 1) as nat), b)
    }
}

proof fn lemma_nested_ceiling(k: nat, a: nat, b: nat)
    requires
        a > 0,
        b > 0,
    ensures
        batch_count(batch_count(k, a), b) == batch_count(k, a * b),
{
    let ai = a as int;
    let bi = b as int;
    let x = k + ai - 1;
    assert(a * b > 0) by(nonlinear_arith)
        requires
            a > 0,
            b > 0,
    ;
    vstd::arithmetic::div_mod::lemma_hoist_over_denominator(x, bi - 1, a);
    assert(x + (bi - 1) * ai == k + ai * bi - 1) by(nonlinear_arith)
        requires
            x == k + ai - 1,
    ;
    vstd::arithmetic::div_mod::lemma_div_denominator(k + ai * bi - 1, ai, bi);
}

proof fn lemma_count_after_step(k: nat, b: nat, r: nat)
    requires
        b > 0,
    ensures
        count_after(k, b, r + 1) == count_after(batch_count(k, b), b, r),
    decreases r,
{
    assert(count_after(k, b, r + 1) == batch_count(count_after(k, b, r), b));
    if r > 0 {
        lemma_count_after_step(k, b, (r - 1) as nat);
        assert(count_after(batch_count(k, b), b, r) == batch_count(
            count_after(batch_count(k, b), b, (r - 1) as nat),
            b,
        ));
    }
}

/// Each round divides the number of sources by the batch size, rounding
/// up: after `r` rounds over `k` sources, `k / b^r` rounded up remain.
pub proof fn lemma_count_after(k: nat, b: nat, r: nat)
    requires
        b > 0,
    ensures
        count_after(k, b, r) == batch_count(k, pow(b as int, r) as nat),
    decreases r,
{
    reveal(pow);
    vstd::arithmetic::power::lemma_pow_positive(b as int, r);
    if r == 0 {
        assert(batch_count(k, 1) == k) by {
            vstd::arithmetic::div_mod::lemma_div_basics(k as int);
        }
    } else {
        let p = pow(b as int, (r - 1) as nat);
        vstd::arithmetic::power::lemma_pow_positive(b as int, (r - 1) as nat);
        lemma_count_after(k, b, (r - 1) as nat);
        lemma_nested_ceiling(k, p as nat, b);
        assert(pow(b as int, r) == b * p);
        assert((p as nat) * b == (b * p) as nat) by(nonlinear_arith)
            requires
                p > 0,
        ;
    }
}

/// Rounds run exactly while the sources outnumber the batch size: before
/// `rounds_needed(k, b)` rounds more than `b` sources are left, after them
/// at most `b`.
pub proof fn lemma_rounds_stop(k: nat, b: nat)
    requires
        b > 1,
    ensures
        count_after(k, b, rounds_needed(k, b)) <= b,
        forall|r: nat| r < rounds_needed(k, b) ==> #[trigger] count_after(k, b, r) > b,
    decreases k,
{
    if k > b {
        let k1 = batch_count(k, b);
        lemma_round_reduces(k, b);
        lemma_rounds_stop(k1, b);
        let n = rounds_needed(k1, b);
        lemma_count_after_step(k, b, n);
        assert forall|r: nat| r < rounds_needed(k, b) implies #[trigger] count_after(k, b, r) > b by {
            if r > 0 {
                lemma_count_after_step(k, b, (r - 1) as nat);
                assert(count_after(k1, b, (r - 1) as nat) > b);
            }
        }
    }
}

/// The number of rounds before `k` sources fit in one batch of `b`.
pub open spec fn rounds_needed(k: nat, b: nat) -> nat
    decreases k,
    via rounds_needed_decreases
{
    if b <= 1 || k <= b {
        0
    } else {
        1 + rounds_needed(batch_count(k, b), b)
    }
}

#[via_fn]
proof fn rounds_needed_decreases(k: nat, b: nat) {
    if !(b <= 1 || k <= b) {
        lemma_round_reduces(k, b);
    }
}

/// Repeated rounds end: with a batch size `b` above 1 the number of rounds
/// for `k` sources is at most ceil(log_b(k)), that is at most every `m`
/// with `b^m >= k`.
pub proof fn lemma_rounds_bounded(k: nat, b: nat, m: nat)
    requires
        b > 1,
        pow(b as int, m) >= k,
    ensures
        rounds_needed(k, b) <= m,
    decreases k,
{
    reveal(pow);
    if k > b {
        lemma_round_reduces(k, b);
        let bi = b as int;
        if m == 0 {
            assert(pow(bi, 0) == 1);
        } else {
            let p = pow(bi, (m - 1) as nat);
            assert(pow(bi, m) == bi * p);
            if m == 1 {
                assert(p == 1);
            }
            assert(k + bi - 1 < bi * (p + 1)) by(nonlinear_arith)
                requires
                    k <= bi * p,
                    bi > 1,
            ;
            vstd::arithmetic::div_mod::lemma_multiply_divide_lt(k + bi - 1, bi, p + 1);
            lemma_rounds_bounded(batch_count(k, b), b, (m - 1) as nat);
        }
    }
}

} // verus!
