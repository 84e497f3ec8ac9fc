//! Choices of the per-date sample fetcher: the query URL, which sample
//! entries survive when a sample id repeats, and the read budget.
use vstd::prelude::*;
use crate::decimal::{digit_char, digit_str};

verus! {

/// Whether `year` has a 29th of February.
pub open spec fn is_leap_year(year: int) -> bool {
    year % 4 == 0 && (year % 100 != 0 || year % 400 == 0)
}

/// The number of days of a month of a year.
pub open spec fn days_in_month(year: int, month: int) -> int {
    if month == 2 {
        if is_leap_year(year) {
            29
        } else {
            28
        }
    } else if month == 4 || month == 6 || month == 9 || month == 11 {
        30
    } else {
        31
    }
}

/// A date of the proleptic Gregorian calendar, in the years 0 to 9999.
#[derive(Clone, Copy, Debug, PartialEq, Eq, Structural)]
pub struct CalendarDate {
    year: u32,
    month: u32,
    day: u32,
}

/// The text `YYYY-MM-DD` of a date, each part padded with zeros.
pub open spec fn iso_date(year: int, month: int, day: int) -> Seq<char> {
    seq![
        digit_char(year / 1000),
        digit_char(year / 100 % 10),
        digit_char(year / 10 % 10),
        digit_char(year % 10),
        '-',
        digit_char(month / 10),
        digit_char(month % 10),
        '-',
        digit_char(day / 10),
        digit_char(day % 10),
    ]
}

impl CalendarDate {
    /// The date names a real day of a year from 0 to 9999.
    pub open spec fn valid(year: int, month: int, day: int) -> bool {
        &&& 0 <= year <= 9999
        &&& 1 <= month <= 12
        &&& 1 <= day <= days_in_month(year, month)
    }

    /// The year of the date.
    pub closed spec fn year_spec(&self) -> int {
        self.year as int
    }

    /// The month of the date, from 1 to 12.
    pub closed spec fn month_spec(&self) -> int {
        self.month as int
    }

    /// The day of the month, from 1.
    pub closed spec fn day_spec(&self) -> int {
        self.day as int
    }

    #[verifier::type_invariant]
    spec fn inv(&self) -> bool {
        CalendarDate::valid(self.year as int, self.month as int, self.day as int)
    }

    /// The date of the given year, month and day, or `None` when there is no
    /// such day or the year is outside 0 to 9999.
    pub fn from_ymd(year: i32, month: u32, day: u32) -> (r: Option<CalendarDate>)
        ensures
            r is Some <==> CalendarDate::valid(year as int, month as int, day as int),
            r matches Some(d) ==> d.year_spec() == year && d.month_spec() == month && d.day_spec() == day,
    {
        if year < 0 || year > 9999 || month < 1 || month > 12 || day < 1 {
            return None;
        }
        let leap = year % 4 == 0 && (year % 100 != 0 || year % 400 == 0);
        let last: u32 = if month == 2 {
            if leap {
                29
            } else {
                28
            }
        } else if month == 4 || month == 6 || month == 9 || month == 11 {
            30
        } else {
            31
        };
        if day > last {
            return None;
        }
        Some(CalendarDate { year: year as u32, month, day })
    }

    /// The text `YYYY-MM-DD` of the date.
    pub fn to_iso_string(&self) -> (r: String)
        ensures
            r@ == iso_date(self.year_spec(), self.month_spec(), self.day_spec()),
    {
        proof {
            use_type_invariant(self);
            reveal_strlit("-");
        }
        let y = self.year as u64;
        let m = self.month as u64;
        let d = self.day as u64;
        let mut s = String::new();
        s.append(digit_str(y / 1000));
        s.append(digit_str(y / 100 % 10));
        s.append(digit_str(y / 10 % 10));
        s.append(digit_str(y % 10));
        s.append("-");
        s.append(digit_str(m / 10));
        s.append(digit_str(m % 10));
        s.append("-");
        s.append(digit_str(d / 10));
        s.append(digit_str(d % 10));
        assert(s@ =~= iso_date(self.year_spec(), self.month_spec(), self.day_spec()));
        s
    }
}

/// The URL of the query for the samples of `organism` taken on the day
/// written `sampling_date`.
pub open spec fn samples_url(api_base_url: Seq<char>, organism: Seq<char>, sampling_date: Seq<char>) -> Seq<char> {
    api_base_url + "/"@ + organism + "/sample/details?samplingDate="@ + sampling_date
        + "&dataFormat=JSON&downloadAsFile=false"@
}

/// Builds the URL for fetching the samples of one sampling date.
pub fn build_samples_url(api_base_url: &str, organism: &str, date: &CalendarDate) -> (r: String)
    ensures
        r@ == samples_url(api_base_url@, organism@, iso_date(date.year_spec(), date.month_spec(), date.day_spec())),
{
    let date_text = date.to_iso_string();
    let mut s = api_base_url.to_string();
    s.append("/");
    s.append(organism);
    s.append("/sample/details?samplingDate=");
    s.append(date_text.as_str());
    s.append("&dataFormat=JSON&downloadAsFile=false");
    assert(s@ =~= samples_url(api_base_url@, organism@, date_text@));
    s
}

/// The views of a list of strings.
pub open spec fn texts(v: Seq<String>) -> Seq<Seq<char>> {
    v.map_values(|s: String| s@)
}

/// Entry `i` is the last one that carries its id.
pub open spec fn is_last(ids: Seq<Seq<char>>, i: int) -> bool {
    forall|j: int| i < j < ids.len() ==> ids[j] != ids[i]
}

/// Which entries to keep when sample ids repeat: the positions of the last
/// entry of each id, in increasing order, and the number of entries dropped.
pub fn latest_by_id(ids: &Vec<String>) -> (r: (Vec<usize>, usize))
    ensures
        forall|p: int, q: int| 0 <= p < q < r.0@.len() ==> r.0@[p] < r.0@[q],
        forall|p: int| 0 <= p < r.0@.len() ==> #[trigger] r.0@[p] < ids@.len() && is_last(texts(ids@), r.0@[p] as int),
        forall|i: int| 0 <= i < ids@.len() && is_last(texts(ids@), i) ==> r.0@.contains(i as usize),
        r.1 == ids@.len() - r.0@.len(),
{
    let ghost t = texts(ids@);
    let n = ids.len();
    let mut keep: Vec<usize> = Vec::new();
    let mut i: usize = 0;
    while i < n
        invariant
            n == ids@.len(),
            t == texts(ids@),
            i <= n,
            keep@.len() <= i,
            forall|p: int, q: int| 0 <= p < q < keep@.len() ==> keep@[p] < keep@[q],
            forall|p: int| 0 <= p < keep@.len() ==> #[trigger] keep@[p] < i && is_last(t, keep@[p] as int),
            forall|a: int| 0 <= a < i && is_last(t, a) ==> keep@.contains(a as usize),
        decreases n - i,
    {
        let mut later = false;
        let mut j: usize = i + 1;
        while j < n
            invariant
                n == ids@.len(),
                t == texts(ids@),
                i < n,
                i + 1 <= j <= n,
                later <==> exists|b: int| i < b < j && t[b] == t[i as int],
            decreases n - j,
        {
            let same = ids[j] == ids[i];
            assert(t[j as int] == ids@[j as int]@ && t[i as int] == ids@[i as int]@);
            if same {
                later = true;
            }
            j = j + 1;
        }
        let ghost old_keep = keep@;
        if !later {
            keep.push(i);
            assert(keep@[keep@.len() - 1] == i);
        }
        assert forall|a: int| 0 <= a < i + 1 && is_last(t, a) implies keep@.contains(a as usize) by {
            if a < i {
                let p = choose|p: int| 0 <= p < old_keep.len() && old_keep[p] == a as usize;
                assert(keep@[p] == a as usize);
            } else {
                assert(!later);
                assert(keep@[keep@.len() - 1] == i);
            }
        }
        i = i + 1;
    }
    let dropped = n - keep.len();
    (keep, dropped)
}

/// The read total after taking a date with `date_reads` more reads, or
/// `None` when that would pass `max_reads`.
pub fn admit_reads(total_reads: u64, date_reads: u64, max_reads: u64) -> (r: Option<u64>)
    ensures
        r == if total_reads + date_reads <= max_reads {
            Some((total_reads + date_reads) as u64)
        } else {
            None::<u64>
        },
{
    if total_reads <= max_reads && date_reads <= max_reads - total_reads {
        Some(total_reads + date_reads)
    } else {
        None
    }
}

/// The sum of a sequence of read counts.
pub open spec fn sum_of(s: Seq<u64>) -> int
    decreases s.len(),
{
    if s.len() == 0 {
        0
    } else {
        sum_of(s.drop_last()) + s.last()
    }
}

/// The sum of the read counts, or `None` when it does not fit in a `u64`.
pub fn total_reads(counts: &[u64]) -> (r: Option<u64>)
    ensures
        r == if sum_of(counts@) <= u64::MAX {
            Some(sum_of(counts@) as u64)
        } else {
            None::<u64>
        },
{
    let mut total: u64 = 0;
    let mut i: usize = 0;
    while i < counts.len()
        invariant
            i <= counts@.len(),
            total == sum_of(counts@.take(i as int)),
        decreases counts@.len() - i,
    {
        assert(counts@.take(i + 1).drop_last() =~= counts@.take(i as int));
        if total > u64::MAX - counts[i] {
            proof {
                lemma_sum_grows(counts@, i + 1);
            }
            return None;
        }
        total = total + counts[i];
        i = i + 1;
    }
    assert(counts@.take(i as int) =~= counts@);
    Some(total)
}

proof fn lemma_sum_grows(s: Seq<u64>, n: int)
    requires
        0 <= n <= s.len(),
    ensures
        sum_of(s.take(n)) <= sum_of(s),
    decreases s.len() - n,
{
    if n < s.len() {
        lemma_sum_grows(s, n + 1);
        assert(s.take(n + 1).drop_last() =~= s.take(n));
    } else {
        assert(s.take(n) =~= s);
    }
}

} // verus!
