//! The whole computation from tag texts to the ordered series, and the laws
//! it obeys.
use crate::frequency::{aggregate, all_parse, build_series, focal_values, InvalidFocalLength};
use crate::normalize::focal_micros;
use crate::points::{
    is_series_of, lemma_series_of_empty, lemma_series_unique, total_of, SeriesPoint,
};
use vstd::multiset::Multiset;
use vstd::prelude::*;

verus! {

broadcast use {vstd::seq_lib::group_to_multiset_ensures, vstd::multiset::group_multiset_properties};

/// The frequency series of the focal lengths that `texts` write: one point
/// per distinct value, ascending, with how many texts gave it. Fails at the
/// first text that is no focal length.
pub fn focal_length_series(texts: &Vec<String>) -> (r: Result<Vec<SeriesPoint>, InvalidFocalLength>)
    ensures
        r is Ok <==> all_parse(texts@),
        r matches Ok(s) ==> is_series_of(s@, focal_values(texts@).to_multiset()) && total_of(s@)
            == texts@.len(),
        r matches Err(e) ==> e.position < texts@.len() && focal_micros(
            texts@[e.position as int]@,
        ) is None && forall|i: int|
            0 <= i < e.position ==> (#[trigger] focal_micros(texts@[i]@)) is Some,
        texts@.len() == 0 ==> (r matches Ok(s) && s@.len() == 0 && total_of(s@) == 0),
{
    match aggregate(texts) {
        Err(e) => Err(e),
        Ok(table) => {
            let s = build_series(&table);
            proof {
                if texts@.len() == 0 {
                    assert(focal_values(texts@).to_multiset() =~= Multiset::empty());
                    lemma_series_of_empty(s@);
                }
            }
            Ok(s)
        },
    }
}

/// The sum of the counts of a series.
pub fn series_total(series: &Vec<SeriesPoint>) -> (r: u64)
    requires
        total_of(series@) <= u64::MAX,
    ensures
        r == total_of(series@),
{
    let mut sum: u64 = 0;
    let mut i: usize = 0;
    while i < series.len()
        invariant
            i <= series@.len(),
            total_of(series@) <= u64::MAX,
            sum == total_of(series@.take(i as int)),
        decreases series@.len() - i,
    {
        proof {
            assert(series@.take(i + 1).drop_last() =~= series@.take(i as int));
            lemma_total_prefix(series@, i + 1);
        }
        sum = sum + series[i].count;
        i += 1;
    }
    proof {
        assert(series@.take(i as int) =~= series@);
    }
    sum
}

proof fn lemma_total_prefix(s: Seq<SeriesPoint>, n: int)
    requires
        0 <= n <= s.len(),
    ensures
        total_of(s.take(n)) <= total_of(s),
    decreases s.len() - n,
{
    if n < s.len() {
        assert(s.take(n + 1).drop_last() =~= s.take(n));
        lemma_total_prefix(s, n + 1);
    } else {
        assert(s.take(n) =~= s);
    }
}

proof fn lemma_values_permuted(t1: Seq<String>, t2: Seq<String>)
    requires
        t1.to_multiset() == t2.to_multiset(),
    ensures
        focal_values(t1).to_multiset() == focal_values(t2).to_multiset(),
    decreases t1.len(),
{
    let f1 = focal_values(t1);
    let f2 = focal_values(t2);
    if t1.len() == 0 {
        assert(t1.to_multiset().len() == 0);
        assert(t2.to_multiset().len() == t2.len());
        assert(f1 =~= f2);
    } else {
        let x = t1.last();
        let rest = t1.drop_last();
        assert(t1 =~= rest.push(x));
        assert(t2.to_multiset().count(x) > 0);
        assert(t2.contains(x));
        let j = choose|j: int| 0 <= j < t2.len() && t2[j] == x;
        assert(rest.to_multiset() =~= t2.remove(j).to_multiset());
        lemma_values_permuted(rest, t2.remove(j));
        assert(f1 =~= focal_values(rest).push(f1.last()));
        assert(focal_values(t2.remove(j)) =~= f2.remove(j));
        assert(f2[j] == f1.last());
        assert(f2.to_multiset().count(f2[j]) > 0) by {
            assert(f2.contains(f2[j]));
        }
        assert(f1.to_multiset() =~= f2.to_multiset());
    }
}

/// The series is a function of the texts: two runs on the same texts give
/// the same series.
pub proof fn law_series_is_determined(texts: Seq<String>, a: Seq<SeriesPoint>, b: Seq<SeriesPoint>)
    requires
        is_series_of(a, focal_values(texts).to_multiset()),
        is_series_of(b, focal_values(texts).to_multiset()),
    ensures
        a == b,
{
    lemma_series_unique(a, b, focal_values(texts).to_multiset());
}

/// The order of the texts does not matter: texts that are a permutation of
/// one another give the same series.
pub proof fn law_series_order_independent(
    t1: Seq<String>,
    t2: Seq<String>,
    a: Seq<SeriesPoint>,
    b: Seq<SeriesPoint>,
)
    requires
        t1.to_multiset() == t2.to_multiset(),
        is_series_of(a, focal_values(t1).to_multiset()),
        is_series_of(b, focal_values(t2).to_multiset()),
    ensures
        a == b,
{
    lemma_values_permuted(t1, t2);
    lemma_series_unique(a, b, focal_values(t1).to_multiset());
}

} // verus!
