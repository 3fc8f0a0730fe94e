//! The frequency table of normalised focal lengths, and its ordered series.
use crate::normalize::{focal_micros, parse_focal_length};
use crate::points::{
    count_in, distinct_keys, lemma_ascending_distinct, lemma_count_absent, lemma_count_at,
    lemma_count_le_total, lemma_insert, lemma_update, positive_counts, strictly_ascending,
    total_of, SeriesPoint,
};
use vstd::prelude::*;

verus! {

broadcast use vstd::seq_lib::group_to_multiset_ensures;

/// The count of each focal length seen so far, one entry per distinct value,
/// in the order the values were first seen.
pub struct FrequencyTable {
    entries: Vec<SeriesPoint>,
}

/// The tag text at `position` is no focal length.
#[derive(Clone, Copy, Debug, PartialEq, Eq, Structural)]
pub struct InvalidFocalLength {
    pub position: usize,
}

/// Every text reads as a focal length.
pub open spec fn all_parse(texts: Seq<String>) -> bool {
    forall|i: int| 0 <= i < texts.len() ==> (#[trigger] focal_micros(texts[i]@)) is Some
}

/// The normalised value of each text.
pub open spec fn focal_values(texts: Seq<String>) -> Seq<u64> {
    texts.map_values(|t: String| focal_micros(t@).unwrap())
}

impl FrequencyTable {
    /// The entries, in the order their values were first seen.
    pub closed spec fn points(&self) -> Seq<SeriesPoint> {
        self.entries@
    }

    pub open spec fn wf(&self) -> bool {
        distinct_keys(self.points()) && positive_counts(self.points())
    }

    /// How many times `k` was recorded.
    pub open spec fn count(&self, k: u64) -> nat {
        count_in(self.points(), k)
    }

    /// How many values were recorded in all.
    pub open spec fn total(&self) -> nat {
        total_of(self.points())
    }

    pub fn new() -> (t: Self)
        ensures
            t.wf(),
            forall|k: u64| t.count(k) == 0,
            t.total() == 0,
    {
        FrequencyTable { entries: Vec::new() }
    }

    fn position_of(&self, v: u64) -> (r: Option<usize>)
        ensures
            r matches Some(j) ==> j < self.entries@.len() && self.entries@[j as int].focal_micros
                == v,
            r is None ==> forall|a: int|
                0 <= a < self.entries@.len() ==> #[trigger] self.entries@[a].focal_micros != v,
    {
        let mut i: usize = 0;
        while i < self.entries.len()
            invariant
                i <= self.entries@.len(),
                forall|a: int| 0 <= a < i ==> #[trigger] self.entries@[a].focal_micros != v,
            decreases self.entries@.len() - i,
        {
            if self.entries[i].focal_micros == v {
                return Some(i);
            }
            i += 1;
        }
        None
    }

    /// Counts one more occurrence of `v`.
    pub fn record(&mut self, v: u64)
        requires
            old(self).wf(),
            old(self).total() < u64::MAX,
        ensures
            final(self).wf(),
            forall|k: u64| #[trigger]
                final(self).count(k) == old(self).count(k) + if k == v {
                    1int
                } else {
                    0int
                },
            final(self).total() == old(self).total() + 1,
    {
        let ghost s = self.entries@;
        match self.position_of(v) {
            Some(j) => {
                let c = self.entries[j].count;
                proof {
                    lemma_count_at(s, j as int);
                    lemma_count_le_total(s, v);
                }
                let p = SeriesPoint { focal_micros: v, count: c + 1 };
                self.entries[j] = p;
                proof {
                    lemma_update(s, j as int, p);
                    assert(self.entries@ == s.update(j as int, p));
                    assert forall|a: int, b: int|
                        0 <= a < self.entries@.len() && 0 <= b < self.entries@.len() && a != b
                            implies #[trigger] self.entries@[a].focal_micros
                        != #[trigger] self.entries@[b].focal_micros by {
                        assert(s[a].focal_micros != s[b].focal_micros);
                    }
                }
            },
            None => {
                let p = SeriesPoint { focal_micros: v, count: 1 };
                self.entries.push(p);
                proof {
                    assert(self.entries@.drop_last() =~= s);
                    assert forall|a: int, b: int|
                        0 <= a < self.entries@.len() && 0 <= b < self.entries@.len() && a != b
                            implies #[trigger] self.entries@[a].focal_micros
                        != #[trigger] self.entries@[b].focal_micros by {
                        if a < s.len() && b < s.len() {
                            assert(s[a].focal_micros != s[b].focal_micros);
                        } else if a < s.len() {
                            assert(s[a].focal_micros != v);
                        } else {
                            assert(s[b].focal_micros != v);
                        }
                    }
                }
            },
        }
    }

    /// How many times `v` was recorded.
    pub fn count_of(&self, v: u64) -> (r: u64)
        requires
            self.wf(),
        ensures
            r == self.count(v),
    {
        match self.position_of(v) {
            Some(j) => {
                proof {
                    lemma_count_at(self.entries@, j as int);
                }
                self.entries[j].count
            },
            None => {
                proof {
                    lemma_count_absent(self.entries@, v);
                }
                0
            },
        }
    }

    /// How many distinct values were recorded.
    pub fn distinct_values(&self) -> (r: usize)
        ensures
            r == self.points().len(),
    {
        self.entries.len()
    }
}


/// Normalises each tag text and counts each value. Fails at the first text
/// that is no focal length.
pub fn aggregate(texts: &Vec<String>) -> (r: Result<FrequencyTable, InvalidFocalLength>)
    ensures
        r is Ok <==> all_parse(texts@),
        r matches Ok(t) ==> t.wf() && t.total() == texts@.len() && forall|k: u64|
            #[trigger] t.count(k) == focal_values(texts@).to_multiset().count(k),
        r matches Err(e) ==> e.position < texts@.len() && focal_micros(
            texts@[e.position as int]@,
        ) is None && forall|i: int|
            0 <= i < e.position ==> (#[trigger] focal_micros(texts@[i]@)) is Some,
{
    let ghost values = focal_values(texts@);
    let mut table = FrequencyTable::new();
    let mut i: usize = 0;
    while i < texts.len()
        invariant
            i <= texts@.len(),
            values == focal_values(texts@),
            table.wf(),
            table.total() == i,
            forall|a: int| 0 <= a < i ==> (#[trigger] focal_micros(texts@[a]@)) is Some,
            forall|k: u64| #[trigger]
                table.count(k) == values.take(i as int).to_multiset().count(k),
        decreases texts@.len() - i,
    {
        match parse_focal_length(texts[i].as_str()) {
            None => {
                return Err(InvalidFocalLength { position: i });
            },
            Some(v) => {
                proof {
                    assert(values.take(i + 1) =~= values.take(i as int).push(v));
                }
                table.record(v);
                i += 1;
            },
        }
    }
    proof {
        assert(values.take(i as int) =~= values);
    }
    Ok(table)
}

/// The table's entries as a series: ascending by focal length, with their counts.
pub fn build_series(table: &FrequencyTable) -> (r: Vec<SeriesPoint>)
    requires
        table.wf(),
    ensures
        strictly_ascending(r@),
        positive_counts(r@),
        forall|k: u64| #[trigger] count_in(r@, k) == table.count(k),
        total_of(r@) == table.total(),
{
    let ghost e = table.entries@;
    let mut out: Vec<SeriesPoint> = Vec::new();
    let mut i: usize = 0;
    while i < table.entries.len()
        invariant
            e == table.entries@,
            distinct_keys(e),
            positive_counts(e),
            i <= e.len(),
            strictly_ascending(out@),
            positive_counts(out@),
            forall|k: u64| #[trigger] count_in(out@, k) == count_in(e.take(i as int), k),
            total_of(out@) == total_of(e.take(i as int)),
        decreases e.len() - i,
    {
        let p = table.entries[i];
        let mut pos: usize = 0;
        while pos < out.len() && out[pos].focal_micros < p.focal_micros
            invariant
                pos <= out@.len(),
                forall|a: int| 0 <= a < pos ==> #[trigger] out@[a].focal_micros < p.focal_micros,
            decreases out@.len() - pos,
        {
            pos += 1;
        }
        proof {
            assert forall|a: int| 0 <= a < i implies #[trigger] e.take(i as int)[a].focal_micros
                != p.focal_micros by {
                assert(e.take(i as int)[a] == e[a]);
            }
            lemma_count_absent(e.take(i as int), p.focal_micros);
            if pos < out@.len() && out@[pos as int].focal_micros == p.focal_micros {
                lemma_ascending_distinct(out@);
                lemma_count_at(out@, pos as int);
            }
            lemma_insert(out@, pos as int, p);
            let t = e.take(i + 1);
            assert(t.drop_last() =~= e.take(i as int));
            assert(t.last() == p);
            assert forall|k: u64| #[trigger] count_in(t, k) == count_in(e.take(i as int), k) + (
            if p.focal_micros == k {
                p.count as nat
            } else {
                0
            }) by {}
        }
        let ghost before = out@;
        out.insert(pos, p);
        proof {
            before.insert_ensures(pos as int, p);
            assert forall|a: int, b: int|
                0 <= a < b < out@.len() implies #[trigger] out@[a].focal_micros
                < #[trigger] out@[b].focal_micros by {
                if b < pos {
                } else if b == pos {
                    assert(out@[a] == before[a]);
                } else if a < pos {
                    assert(out@[b] == before[b - 1]);
                    if pos < before.len() {
                        assert(before[pos as int].focal_micros <= before[b - 1].focal_micros);
                    }
                } else if a == pos {
                    assert(out@[b] == before[b - 1]);
                    assert(before[pos as int].focal_micros <= before[b - 1].focal_micros);
                } else {
                    assert(out@[a] == before[a - 1]);
                    assert(out@[b] == before[b - 1]);
                }
            }
        }
        i += 1;
    }
    proof {
        assert(e.take(i as int) =~= e);
    }
    out
}

} // verus!
