//! Points of a frequency series and facts about sequences of them.
use vstd::multiset::Multiset;
use vstd::prelude::*;

verus! {

/// One focal length (in micrometres) and how many times it was seen.
#[derive(Clone, Copy, Debug, PartialEq, Eq, Structural)]
pub struct SeriesPoint {
    pub focal_micros: u64,
    pub count: u64,
}

/// How many times `k` was counted in `s`: the counts of its points for `k`, added.
pub open spec fn count_in(s: Seq<SeriesPoint>, k: u64) -> nat
    decreases s.len(),
{
    if s.len() == 0 {
        0
    } else {
        count_in(s.drop_last(), k) + if s.last().focal_micros == k {
            s.last().count as nat
        } else {
            0
        }
    }
}

/// The sum of all counts in `s`.
pub open spec fn total_of(s: Seq<SeriesPoint>) -> nat
    decreases s.len(),
{
    if s.len() == 0 {
        0
    } else {
        total_of(s.drop_last()) + s.last().count as nat
    }
}

pub open spec fn distinct_keys(s: Seq<SeriesPoint>) -> bool {
    forall|i: int, j: int|
        0 <= i < s.len() && 0 <= j < s.len() && i != j ==> #[trigger] s[i].focal_micros
            != #[trigger] s[j].focal_micros
}

pub open spec fn positive_counts(s: Seq<SeriesPoint>) -> bool {
    forall|i: int| 0 <= i < s.len() ==> #[trigger] s[i].count > 0
}

/// Focal lengths strictly ascending: sorted, and each at most once.
pub open spec fn strictly_ascending(s: Seq<SeriesPoint>) -> bool {
    forall|i: int, j: int|
        0 <= i < j < s.len() ==> #[trigger] s[i].focal_micros < #[trigger] s[j].focal_micros
}

/// `s` is the series of the tally `m`: ascending, one point per value seen, with its count.
pub open spec fn is_series_of(s: Seq<SeriesPoint>, m: Multiset<u64>) -> bool {
    &&& strictly_ascending(s)
    &&& positive_counts(s)
    &&& forall|k: u64| count_in(s, k) == m.count(k)
}

pub proof fn lemma_update(s: Seq<SeriesPoint>, j: int, p: SeriesPoint)
    requires
        0 <= j < s.len(),
    ensures
        forall|k: u64|
            count_in(s.update(j, p), k) + (if s[j].focal_micros == k { s[j].count as nat } else { 0 })
                == count_in(s, k) + (if p.focal_micros == k { p.count as nat } else { 0 }),
        total_of(s.update(j, p)) + s[j].count == total_of(s) + p.count,
    decreases s.len(),
{
    let u = s.update(j, p);
    assert(u.last() == if j == s.len() - 1 { p } else { s.last() });
    if j == s.len() - 1 {
        assert(u.drop_last() =~= s.drop_last());
    } else {
        assert(u.drop_last() =~= s.drop_last().update(j, p));
        assert(s.drop_last()[j] == s[j]);
        lemma_update(s.drop_last(), j, p);
    }
    assert forall|k: u64|
        count_in(u, k) + (if s[j].focal_micros == k { s[j].count as nat } else { 0 })
            == count_in(s, k) + (if p.focal_micros == k { p.count as nat } else { 0 }) by {
        assert(count_in(u, k) == count_in(u.drop_last(), k) + if u.last().focal_micros == k {
            u.last().count as nat
        } else {
            0
        });
        assert(count_in(s, k) == count_in(s.drop_last(), k) + if s.last().focal_micros == k {
            s.last().count as nat
        } else {
            0
        });
    }
}

pub proof fn lemma_insert(s: Seq<SeriesPoint>, i: int, p: SeriesPoint)
    requires
        0 <= i <= s.len(),
    ensures
        forall|k: u64|
            count_in(s.insert(i, p), k) == count_in(s, k) + (if p.focal_micros == k {
                p.count as nat
            } else {
                0
            }),
        total_of(s.insert(i, p)) == total_of(s) + p.count,
    decreases s.len(),
{
    let t = s.insert(i, p);
    if i == s.len() {
        assert(t =~= s.push(p));
        assert(t.drop_last() =~= s);
    } else {
        assert(t.drop_last() =~= s.drop_last().insert(i, p));
        assert(t.last() == s.last());
        lemma_insert(s.drop_last(), i, p);
    }
    assert forall|k: u64|
        count_in(t, k) == count_in(s, k) + (if p.focal_micros == k {
            p.count as nat
        } else {
            0
        }) by {
        assert(count_in(t, k) == count_in(t.drop_last(), k) + if t.last().focal_micros == k {
            t.last().count as nat
        } else {
            0
        });
    }
}

/// With distinct keys, the count of a point's key is that point's count.
pub proof fn lemma_count_at(s: Seq<SeriesPoint>, j: int)
    requires
        distinct_keys(s),
        0 <= j < s.len(),
    ensures
        count_in(s, s[j].focal_micros) == s[j].count,
    decreases s.len(),
{
    let k = s[j].focal_micros;
    if j < s.len() - 1 {
        assert(s.drop_last()[j] == s[j]);
        lemma_count_at(s.drop_last(), j);
    } else {
        lemma_count_absent(s.drop_last(), k);
    }
}

pub proof fn lemma_count_absent(s: Seq<SeriesPoint>, k: u64)
    requires
        forall|i: int| 0 <= i < s.len() ==> #[trigger] s[i].focal_micros != k,
    ensures
        count_in(s, k) == 0,
    decreases s.len(),
{
    if s.len() > 0 {
        assert(s.last().focal_micros != k);
        assert forall|i: int| 0 <= i < s.drop_last().len() implies #[trigger] s.drop_last()[i].focal_micros != k by {
            assert(s.drop_last()[i] == s[i]);
        }
        lemma_count_absent(s.drop_last(), k);
    }
}

pub proof fn lemma_count_le_total(s: Seq<SeriesPoint>, k: u64)
    ensures
        count_in(s, k) <= total_of(s),
    decreases s.len(),
{
    if s.len() > 0 {
        lemma_count_le_total(s.drop_last(), k);
    }
}


pub proof fn lemma_ascending_distinct(s: Seq<SeriesPoint>)
    requires
        strictly_ascending(s),
    ensures
        distinct_keys(s),
{
    assert forall|i: int, j: int|
        0 <= i < s.len() && 0 <= j < s.len() && i != j implies #[trigger] s[i].focal_micros
        != #[trigger] s[j].focal_micros by {
        if i < j {
            assert(s[i].focal_micros < s[j].focal_micros);
        } else {
            assert(s[j].focal_micros < s[i].focal_micros);
        }
    }
}

/// A key with a non-zero count stands at some point of the sequence.
pub proof fn lemma_count_found(s: Seq<SeriesPoint>, k: u64) -> (j: int)
    requires
        count_in(s, k) > 0,
    ensures
        0 <= j < s.len(),
        s[j].focal_micros == k,
{
    if !(exists|j: int| 0 <= j < s.len() && s[j].focal_micros == k) {
        lemma_count_absent(s, k);
    }
    choose|j: int| 0 <= j < s.len() && s[j].focal_micros == k
}

/// Two series of one tally that agree before index `n` agree at `n`.
proof fn lemma_series_step(a: Seq<SeriesPoint>, b: Seq<SeriesPoint>, m: Multiset<u64>, n: int)
    requires
        is_series_of(a, m),
        is_series_of(b, m),
        0 <= n < a.len(),
        n < b.len(),
        forall|i: int| 0 <= i < n ==> a[i] == b[i],
    ensures
        a[n] == b[n],
{
    lemma_ascending_distinct(a);
    lemma_ascending_distinct(b);
    let ka = a[n].focal_micros;
    let kb = b[n].focal_micros;
    lemma_count_at(a, n);
    lemma_count_at(b, n);
    let jb = lemma_count_found(b, ka);
    let ja = lemma_count_found(a, kb);
    if jb < n {
        assert(a[jb] == b[jb]);
        assert(a[jb].focal_micros < a[n].focal_micros);
    }
    if ja < n {
        assert(a[ja] == b[ja]);
        assert(b[ja].focal_micros < b[n].focal_micros);
    }
    assert(kb <= ka);
    assert(ka <= kb);
}

proof fn lemma_series_prefix(a: Seq<SeriesPoint>, b: Seq<SeriesPoint>, m: Multiset<u64>, n: int)
    requires
        is_series_of(a, m),
        is_series_of(b, m),
        0 <= n <= a.len(),
        n <= b.len(),
    ensures
        forall|i: int| 0 <= i < n ==> a[i] == b[i],
    decreases n,
{
    if n > 0 {
        lemma_series_prefix(a, b, m, n - 1);
        lemma_series_step(a, b, m, n - 1);
    }
}

/// A series past the end of an equal prefix would hold a value that the
/// other series lacks.
proof fn lemma_series_not_longer(a: Seq<SeriesPoint>, b: Seq<SeriesPoint>, m: Multiset<u64>)
    requires
        is_series_of(a, m),
        is_series_of(b, m),
        b.len() <= a.len(),
        forall|i: int| 0 <= i < b.len() ==> a[i] == b[i],
    ensures
        a.len() == b.len(),
{
    if a.len() > b.len() {
        let n = b.len() as int;
        lemma_ascending_distinct(a);
        lemma_count_at(a, n);
        let j = lemma_count_found(b, a[n].focal_micros);
        assert(a[j] == b[j]);
        assert(a[j].focal_micros < a[n].focal_micros);
    }
}

/// A tally has exactly one series: equal tallies give equal series.
pub proof fn lemma_series_unique(a: Seq<SeriesPoint>, b: Seq<SeriesPoint>, m: Multiset<u64>)
    requires
        is_series_of(a, m),
        is_series_of(b, m),
    ensures
        a == b,
{
    if a.len() <= b.len() {
        lemma_series_prefix(a, b, m, a.len() as int);
        lemma_series_not_longer(b, a, m);
    } else {
        lemma_series_prefix(a, b, m, b.len() as int);
        lemma_series_not_longer(a, b, m);
    }
    assert(a =~= b);
}

/// The series of an empty tally has no points.
pub proof fn lemma_series_of_empty(s: Seq<SeriesPoint>)
    requires
        is_series_of(s, Multiset::empty()),
    ensures
        s.len() == 0,
        total_of(s) == 0,
{
    if s.len() > 0 {
        lemma_ascending_distinct(s);
        lemma_count_at(s, 0);
        assert(count_in(s, s[0].focal_micros) == 0);
    }
}

} // verus!
