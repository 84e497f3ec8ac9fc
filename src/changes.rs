//! Detection of new submissions and revocations: the query URLs and the
//! summary of what the queries returned.
use vstd::prelude::*;
use crate::decimal::{push_signed_decimal, signed_decimal};

verus! {

/// One sample as the sample details query reports it.
#[derive(Debug)]
pub struct SampleData {
    pub sample_id: Option<String>,
    pub submitted_at_timestamp: i64,
    pub version_status: Option<String>,
    pub version_comment: Option<String>,
}

/// The URL of the query for new submissions of `organism` since `timestamp`
/// whose sampling date is no earlier than `sampling_date_from`.
pub open spec fn submissions_url(api_base_url: Seq<char>, organism: Seq<char>, timestamp: int, sampling_date_from: Seq<char>) -> Seq<char> {
    api_base_url + "/"@ + organism + "/sample/details?submittedAtTimestampFrom="@ + signed_decimal(timestamp)
        + "&samplingDateFrom="@ + sampling_date_from + "&dataFormat=JSON&downloadAsFile=false"@
}

/// The URL of the query for revocations of `organism` since `timestamp`.
pub open spec fn revocations_url(api_base_url: Seq<char>, organism: Seq<char>, timestamp: int) -> Seq<char> {
    api_base_url + "/"@ + organism + "/sample/details?submittedAtTimestampFrom="@ + signed_decimal(timestamp)
        + "&isRevocation=true&dataFormat=JSON&downloadAsFile=false"@
}

/// Builds the URL for fetching new submissions from the sample details API.
pub fn build_submissions_url(api_base_url: &str, organism: &str, timestamp: i64, sampling_date_from: &str) -> (r: String)
    ensures
        r@ == submissions_url(api_base_url@, organism@, timestamp as int, sampling_date_from@),
{
    let mut s = api_base_url.to_string();
    s.append("/");
    s.append(organism);
    s.append("/sample/details?submittedAtTimestampFrom=");
    push_signed_decimal(&mut s, timestamp);
    s.append("&samplingDateFrom=");
    s.append(sampling_date_from);
    s.append("&dataFormat=JSON&downloadAsFile=false");
    assert(s@ =~= submissions_url(api_base_url@, organism@, timestamp as int, sampling_date_from@));
    s
}

/// Builds the URL for fetching revocations from the sample details API.
pub fn build_revocations_url(api_base_url: &str, organism: &str, timestamp: i64) -> (r: String)
    ensures
        r@ == revocations_url(api_base_url@, organism@, timestamp as int),
{
    let mut s = api_base_url.to_string();
    s.append("/");
    s.append(organism);
    s.append("/sample/details?submittedAtTimestampFrom=");
    push_signed_decimal(&mut s, timestamp);
    s.append("&isRevocation=true&dataFormat=JSON&downloadAsFile=false");
    assert(s@ =~= revocations_url(api_base_url@, organism@, timestamp as int));
    s
}

/// `m` is the largest submission timestamp among `samples`.
pub open spec fn is_max_timestamp(samples: Seq<SampleData>, m: i64) -> bool {
    &&& exists|i: int| 0 <= i < samples.len() && #[trigger] samples[i].submitted_at_timestamp == m
    &&& forall|i: int| 0 <= i < samples.len() ==> #[trigger] samples[i].submitted_at_timestamp <= m
}

/// The largest submission timestamp among the samples; `None` when there is
/// no sample.
pub fn calculate_max_timestamp(samples: &[SampleData]) -> (r: Option<i64>)
    ensures
        r is None <==> samples@.len() == 0,
        r matches Some(m) ==> is_max_timestamp(samples@, m),
{
    let mut best: Option<i64> = None;
    let mut i: usize = 0;
    while i < samples.len()
        invariant
            i <= samples@.len(),
            best is None <==> i == 0,
            best matches Some(m) ==> is_max_timestamp(samples@.take(i as int), m),
        decreases samples@.len() - i,
    {
        let t = samples[i].submitted_at_timestamp;
        let ghost prefix = samples@.take(i as int);
        let ghost next = samples@.take(i + 1);
        assert(next =~= prefix.push(samples@[i as int]));
        match best {
            None => {
                assert(next[0].submitted_at_timestamp == t);
                best = Some(t);
            },
            Some(m) => {
                if t > m {
                    assert(next[i as int].submitted_at_timestamp == t);
                    best = Some(t);
                } else {
                    proof {
                        let j = choose|j: int| 0 <= j < prefix.len() && #[trigger] prefix[j].submitted_at_timestamp == m;
                        assert(next[j].submitted_at_timestamp == m);
                    }
                }
                assert forall|j: int| 0 <= j < next.len() implies #[trigger] next[j].submitted_at_timestamp
                    <= best->Some_0 by {
                    if j < i {
                        assert(next[j] == prefix[j]);
                    }
                }
            },
        }
        i = i + 1;
    }
    assert(samples@.take(i as int) =~= samples@);
    best
}

/// What the two queries found: whether anything changed, and the largest
/// submission timestamp among all returned samples.
pub fn summarize_changes(submissions: &[SampleData], revocations: &[SampleData]) -> (r: (bool, Option<i64>))
    ensures
        r.0 <==> submissions@.len() + revocations@.len() > 0,
        r.1 is None <==> submissions@.len() + revocations@.len() == 0,
        r.1 matches Some(m) ==> is_max_timestamp(submissions@ + revocations@, m),
{
    let a = calculate_max_timestamp(submissions);
    let b = calculate_max_timestamp(revocations);
    let ghost all = submissions@ + revocations@;
    let has_data = submissions.len() > 0 || revocations.len() > 0;
    let max = match (a, b) {
        (None, None) => None,
        (Some(x), None) => {
            assert(all =~= submissions@);
            Some(x)
        },
        (None, Some(y)) => {
            assert(all =~= revocations@);
            Some(y)
        },
        (Some(x), Some(y)) => {
            let m = if x >= y { x } else { y };
            let ghost n = submissions@.len() as int;
            assert(is_max_timestamp(all, m)) by {
                if x >= y {
                    let j = choose|j: int| 0 <= j < submissions@.len() && #[trigger] submissions@[j].submitted_at_timestamp == x;
                    assert(all[j] == submissions@[j]);
                } else {
                    let j = choose|j: int| 0 <= j < revocations@.len() && #[trigger] revocations@[j].submitted_at_timestamp == y;
                    assert(all[n + j] == revocations@[j]);
                }
                assert forall|j: int| 0 <= j < all.len() implies #[trigger] all[j].submitted_at_timestamp <= m by {
                    if j < n {
                        assert(all[j] == submissions@[j]);
                    } else {
                        assert(all[j] == revocations@[j - n]);
                    }
                }
            }
            Some(m)
        },
    };
    (has_data, max)
}

/// The first submission timestamp after `last_update`, so that a sample
/// already seen is not reported again; `None` when there is none.
pub fn first_unseen_timestamp(last_update: i64) -> (r: Option<i64>)
    ensures
        r == if last_update < i64::MAX {
            Some((last_update + 1) as i64)
        } else {
            None::<i64>
        },
{
    if last_update < i64::MAX {
        Some(last_update + 1)
    } else {
        None
    }
}

} // verus!
