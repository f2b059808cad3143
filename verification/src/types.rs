//! The typed records that a value tree is read into, and how each is read.

use crate::savedvariables::{int_literal, read_int, ParseError, ValueKind};
use crate::schema::{
    error_in_record, expect_fields, expect_float, field_bool, field_float, field_int,
    field_opt_bool, field_opt_float, field_text, field_unsigned, in_record, kind_of, present,
    required, spec_field_bool, spec_field_float, spec_field_int, spec_field_opt_bool,
    spec_field_opt_float, spec_field_text, spec_field_unsigned, spec_fields, spec_float,
    spec_present, spec_required, value_kind,
};
use crate::value::{
    bytes_eq, bytes_of, copy_bytes, entries_view, is_last, last_indices, lemma_entries_view_index,
    lemma_mapped_pairs, lemma_pairs_get_last, lemma_pairs_get_some, lemma_pairs_map_get,
    lemma_values_view_index, named_view, pairs_map, utf8_text, values_view, Table, TableView,
    Value, ValueView,
};
use std::borrow::Cow;
use vstd::prelude::*;
use vstd::slice::slice_to_vec;
use vstd::string::StringSliceAdditionalSpecFns;
use vstd::utf8::valid_utf8;

verus! {

/// The parameters of the sketch that the new-style trackers share.
#[derive(Debug, Clone, Copy, PartialEq, Eq)]
pub struct SketchParams {
    pub alpha: u64,
    pub gamma: u64,
    pub bin_offset: i64,
    pub trivial_cutoff: u64,
}

/// What every tracker records, whatever its style.
#[derive(Debug, Clone, Copy, PartialEq, Eq)]
pub struct TrackerCore {
    pub calls: u64,
    pub commits: u64,
    pub official_time: Option<u64>,
    pub dependent: Option<bool>,
    pub total_time: u64,
}

/// The statistics of an old-style tracker. The quantiles are a list of
/// entries that stands for a map, as the named part of a table does; the
/// derived `==` compares the list entry by entry.
#[derive(Debug, Clone, PartialEq, Eq)]
pub struct Stats {
    pub mean: u64,
    pub variance: Option<u64>,
    pub skew: Option<u64>,
    pub samples: Vec<u64>,
    pub quantiles: Option<Vec<(Vec<u8>, u64)>>,
}

/// The statistics, with the quantiles as a map.
pub struct StatsView {
    pub mean: u64,
    pub variance: Option<u64>,
    pub skew: Option<u64>,
    pub samples: Seq<u64>,
    pub quantiles: Option<Map<Seq<u8>, u64>>,
}

/// The pairs of a list of quantiles.
pub open spec fn quantile_pairs(q: Seq<(Vec<u8>, u64)>) -> Seq<(Seq<u8>, u64)> {
    q.map_values(|e: (Vec<u8>, u64)| (e.0@, e.1))
}

impl Stats {
    /// The statistics apart from how the lists are stored.
    pub open spec fn view(&self) -> StatsView {
        StatsView {
            mean: self.mean,
            variance: self.variance,
            skew: self.skew,
            samples: self.samples@,
            quantiles: match self.quantiles {
                Some(q) => Some(pairs_map(quantile_pairs(q@))),
                None => None,
            },
        }
    }
}

/// The sketch of a new-style tracker.
#[derive(Debug, Clone, PartialEq, Eq)]
pub struct SketchStats {
    pub outliers: Vec<u64>,
    pub bins: Option<Vec<u64>>,
    pub count: u64,
    pub trivial_count: u64,
}

/// A sketch, with its lists as sequences.
pub struct SketchStatsView {
    pub outliers: Seq<u64>,
    pub bins: Option<Seq<u64>>,
    pub count: u64,
    pub trivial_count: u64,
}

impl SketchStats {
    /// The sketch apart from how the lists are stored.
    pub open spec fn view(&self) -> SketchStatsView {
        SketchStatsView {
            outliers: self.outliers@,
            bins: match self.bins {
                Some(b) => Some(b@),
                None => None,
            },
            count: self.count,
            trivial_count: self.trivial_count,
        }
    }
}

/// What one tracker recorded.
#[derive(Debug, Clone, PartialEq, Eq)]
pub enum TrackerData {
    OldStyle { stats: Stats, top5: Vec<u64>, core: TrackerCore },
    NewStyle { sketch: SketchStats, core: TrackerCore },
}

/// A tracker, by the views of its parts.
pub enum TrackerDataView {
    OldStyle { stats: StatsView, top5: Seq<u64>, core: TrackerCore },
    NewStyle { sketch: SketchStatsView, core: TrackerCore },
}

impl TrackerData {
    /// The tracker apart from how the lists are stored.
    pub open spec fn view(&self) -> TrackerDataView {
        match self {
            TrackerData::OldStyle { stats, top5, core } => TrackerDataView::OldStyle {
                stats: stats@,
                top5: top5@,
                core: *core,
            },
            TrackerData::NewStyle { sketch, core } => TrackerDataView::NewStyle {
                sketch: sketch@,
                core: *core,
            },
        }
    }
}

/// The failure that stands for a keyed table in which some value does not
/// fit: it names the record and what its values must be.
pub open spec fn bad_entries(name: &'static str, expected: ValueKind) -> ParseError {
    ParseError::BadType { name, expected, actual: ValueKind::Named }
}

/// The floats of a list of values: each must be a float or an integer, and
/// the first that is neither is reported.
pub open spec fn spec_floats(a: Seq<ValueView>, name: &'static str) -> Result<Seq<u64>, ParseError>
    decreases a.len(),
{
    if a.len() == 0 {
        Ok(Seq::empty())
    } else {
        match spec_floats(a.drop_last(), name) {
            Err(e) => Err(e),
            Ok(front) => match spec_float(a.last()) {
                Ok(x) => Ok(front.push(x)),
                Err(e) => Err(in_record(e, name)),
            },
        }
    }
}

/// A sequence of floats accepts the empty table, a float array, and an
/// array whose items are floats or integers.
pub open spec fn spec_float_seq(v: ValueView, name: &'static str) -> Result<Seq<u64>, ParseError> {
    match v {
        ValueView::Table(TableView::Empty) => Ok(Seq::empty()),
        ValueView::Table(TableView::FloatArray(bits)) => Ok(bits),
        ValueView::Table(TableView::Array(a)) => spec_floats(a, name),
        ValueView::Table(TableView::MixedTable { .. }) => Err(ParseError::MixedTable),
        _ => Err(ParseError::BadType { name, expected: ValueKind::Array, actual: kind_of(v) }),
    }
}

/// The float of a value that is known to give one.
pub open spec fn float_of(v: ValueView) -> u64 {
    spec_float(v)->Ok_0
}

/// A map of floats accepts a keyed table whose values are all floats or
/// integers.
pub open spec fn spec_float_map(v: ValueView, name: &'static str) -> Result<
    Map<Seq<u8>, u64>,
    ParseError,
> {
    match spec_fields(v, name) {
        Err(e) => Err(e),
        Ok(m) => if forall|k: Seq<u8>| m.contains_key(k) ==> (#[trigger] spec_float(m[k])) is Ok {
            Ok(m.map_values(|x: ValueView| float_of(x)))
        } else {
            Err(bad_entries(name, ValueKind::Float))
        },
    }
}

proof fn lemma_floats_prefix(a: Seq<ValueView>, n: int, name: &'static str)
    requires
        0 <= n <= a.len(),
        spec_floats(a.subrange(0, n), name) is Err,
    ensures
        spec_floats(a, name) == spec_floats(a.subrange(0, n), name),
    decreases a.len() - n,
{
    if n < a.len() {
        assert(a.subrange(0, n + 1).drop_last() =~= a.subrange(0, n));
        lemma_floats_prefix(a, n + 1, name);
    } else {
        assert(a.subrange(0, n) =~= a);
    }
}

/// Reads a sequence of floats.
pub fn float_seq(v: &Value, name: &'static str) -> (r: Result<Vec<u64>, ParseError>)
    ensures
        match r {
            Ok(bits) => spec_float_seq(v.view(), name) == Ok::<Seq<u64>, ParseError>(bits@),
            Err(e) => spec_float_seq(v.view(), name) == Err::<Seq<u64>, ParseError>(e),
        },
{
    match v {
        Value::Table(Table::Empty) => Ok(Vec::new()),
        Value::Table(Table::FloatArray(bits)) => Ok(slice_to_vec(bits.as_slice())),
        Value::Table(Table::Array(values)) => {
            let mut out: Vec<u64> = Vec::new();
            let mut i: usize = 0;
            let ghost a = values_view(values@);
            proof {
                lemma_values_view_index(values@);
                assert(a.subrange(0, 0) =~= Seq::<ValueView>::empty());
            }
            while i < values.len()
                invariant
                    i <= values.len(),
                    v.view() == ValueView::Table(TableView::Array(a)),
                    a == values_view(values@),
                    a.len() == values@.len(),
                    spec_floats(a.subrange(0, i as int), name) == Ok::<Seq<u64>, ParseError>(out@),
                decreases values.len() - i,
            {
                proof {
                    lemma_values_view_index(values@);
                    assert(a.subrange(0, i + 1).drop_last() =~= a.subrange(0, i as int));
                    assert(a.subrange(0, i + 1).last() == values@[i as int].view());
                }
                match expect_float(&values[i]) {
                    Ok(x) => {
                        out.push(x);
                    },
                    Err(e) => {
                        proof {
                            lemma_floats_prefix(a, i + 1, name);
                        }
                        return Err(error_in_record(e, name));
                    },
                }
                i += 1;
            }
            proof {
                assert(a.subrange(0, i as int) =~= a);
            }
            Ok(out)
        },
        Value::Table(Table::MixedTable { .. }) => Err(ParseError::MixedTable),
        _ => Err(ParseError::BadType { name, expected: ValueKind::Array, actual: value_kind(v) }),
    }
}

/// Reads a map of floats.
pub fn float_map(v: &Value, name: &'static str) -> (r: Result<Vec<(Vec<u8>, u64)>, ParseError>)
    ensures
        match r {
            Ok(q) => spec_float_map(v.view(), name) == Ok::<Map<Seq<u8>, u64>, ParseError>(
                pairs_map(quantile_pairs(q@)),
            ),
            Err(e) => spec_float_map(v.view(), name) == Err::<Map<Seq<u8>, u64>, ParseError>(e),
        },
{
    let entries = match expect_fields(v, name) {
        Ok(entries) => entries,
        Err(e) => {
            return Err(e);
        },
    };
    let idx = last_indices(entries);
    let ghost pairs = entries_view(entries@);
    let ghost m = pairs_map(pairs);
    let mut out: Vec<(Vec<u8>, u64)> = Vec::new();
    let mut n: usize = 0;
    proof {
        lemma_entries_view_index(entries@);
    }
    while n < idx.len()
        invariant
            n <= idx.len(),
            pairs == entries_view(entries@),
            m == pairs_map(pairs),
            pairs.len() == entries@.len(),
            spec_fields(v.view(), name) == Ok::<Map<Seq<u8>, ValueView>, ParseError>(m),
            forall|j: int|
                0 <= j < idx@.len() ==> (#[trigger] idx@[j]) < entries@.len() && is_last(
                    pairs,
                    idx@[j] as int,
                ),
            out@.len() == n,
            forall|j: int|
                0 <= j < n ==> (#[trigger] quantile_pairs(out@)[j]) == (
                    pairs[idx@[j] as int].0,
                    float_of(pairs[idx@[j] as int].1),
                ) && spec_float(pairs[idx@[j] as int].1) is Ok,
        decreases idx.len() - n,
    {
        let i = idx[n];
        proof {
            lemma_entries_view_index(entries@);
            lemma_pairs_get_last(pairs, i as int);
            lemma_pairs_map_get(pairs, pairs[i as int].0);
        }
        match expect_float(&entries[i].1) {
            Ok(x) => {
                let key = slice_to_vec(bytes_of(&entries[i].0));
                let ghost before = out@;
                out.push((key, x));
                assert forall|j: int| 0 <= j < n + 1 implies (#[trigger] quantile_pairs(out@)[j])
                    == (pairs[idx@[j] as int].0, float_of(pairs[idx@[j] as int].1)) && spec_float(
                    pairs[idx@[j] as int].1,
                ) is Ok by {
                    if j < n {
                        assert(quantile_pairs(out@)[j] == quantile_pairs(before)[j]);
                    }
                }
            },
            Err(_) => {
                proof {
                    assert(m.contains_key(pairs[i as int].0));
                    assert(spec_float(m[pairs[i as int].0]) is Err);
                }
                return Err(
                    ParseError::BadType {
                        name,
                        expected: ValueKind::Float,
                        actual: ValueKind::Named,
                    },
                );
            },
        }
        n += 1;
    }
    proof {
        lemma_entries_view_index(entries@);
        lemma_mapped_pairs(pairs, idx@, quantile_pairs(out@), |x: ValueView| float_of(x));
        assert forall|k: Seq<u8>| m.contains_key(k) implies (#[trigger] spec_float(m[k])) is Ok by {
            lemma_pairs_map_get(pairs, k);
            let i = lemma_pairs_get_some(pairs, k);
            let j = choose|j: int| 0 <= j < idx@.len() && #[trigger] idx@[j] == i;
            assert(quantile_pairs(out@)[j] == (pairs[i].0, float_of(pairs[i].1)));
        }
    }
    Ok(out)
}

/// The position that the key of a sparse bin names: an optional plus sign
/// and decimal digits. The position behind it must fit in the machine's
/// word, as the list of bins reaches up to it.
pub open spec fn index_of_key(k: Seq<u8>) -> Option<usize> {
    match int_literal(k, 0) {
        Some((v, end)) => if end == k.len() && v >= 0 && k[0] != 45 && v < usize::MAX {
            Some(v as usize)
        } else {
            None
        },
        None => None,
    }
}

/// The entry with key `k` of a map of sparse bins names a position and
/// holds a float.
pub open spec fn bin_entry_ok(m: Map<Seq<u8>, ValueView>, k: Seq<u8>) -> bool {
    index_of_key(k) is Some && spec_float(m[k]) is Ok
}

/// The map holds the key `k`, and `k` names position `i`.
pub open spec fn holds_bin(m: Map<Seq<u8>, ValueView>, k: Seq<u8>, i: int) -> bool {
    m.contains_key(k) && index_of_key(k) is Some && index_of_key(k)->0 == i
}

/// A map of sparse bins is in order where every entry names a position and
/// holds a float, and no two entries name the same position.
pub open spec fn bins_ok(m: Map<Seq<u8>, ValueView>) -> bool {
    &&& forall|k: Seq<u8>| m.contains_key(k) ==> #[trigger] bin_entry_ok(m, k)
    &&& forall|k1: Seq<u8>, k2: Seq<u8>, i: int|
        #[trigger] holds_bin(m, k1, i) && #[trigger] holds_bin(m, k2, i) ==> k1 == k2
}

/// `n` is one more than the highest position that an entry names, or zero
/// where there is no entry.
pub open spec fn is_bins_len(m: Map<Seq<u8>, ValueView>, n: int) -> bool {
    &&& n >= 0
    &&& forall|k: Seq<u8>, i: int| #[trigger] holds_bin(m, k, i) ==> i < n
    &&& (n == 0 || exists|k: Seq<u8>| #[trigger] holds_bin(m, k, n - 1))
}

/// How many bins a map of sparse bins spans.
pub open spec fn bins_len(m: Map<Seq<u8>, ValueView>) -> nat {
    (choose|n: int| is_bins_len(m, n)) as nat
}

/// The bin at position `i`: the float of the entry that names it, or zero.
pub open spec fn bin_at(m: Map<Seq<u8>, ValueView>, i: int) -> u64 {
    if exists|k: Seq<u8>| #[trigger] holds_bin(m, k, i) {
        float_of(m[choose|k: Seq<u8>| #[trigger] holds_bin(m, k, i)])
    } else {
        0
    }
}

/// The dense list of bins that a map of sparse bins stands for.
pub open spec fn spec_sparse_bins(m: Map<Seq<u8>, ValueView>) -> Result<Seq<u64>, ParseError> {
    if bins_ok(m) {
        Ok(Seq::new(bins_len(m), |i: int| bin_at(m, i)))
    } else {
        Err(bad_entries("SketchStats", ValueKind::Float))
    }
}

/// The position that the key of a sparse bin names.
pub fn key_index(key: &[u8]) -> (r: Option<usize>)
    ensures
        r == index_of_key(key@),
{
    match read_int(key, 0) {
        Some((v, end)) => {
            if end == key.len() && v >= 0 && key[0] != 45 && (v as u64) < (usize::MAX as u64) {
                Some(v as usize)
            } else {
                None
            }
        },
        None => None,
    }
}

/// The key of the `j`-th entry that counts.
pub open spec fn key_at(pairs: Seq<(Seq<u8>, ValueView)>, idx: Seq<usize>, j: int) -> Seq<u8> {
    pairs[idx[j] as int].0
}

/// The value of the `j`-th entry that counts.
pub open spec fn value_at(pairs: Seq<(Seq<u8>, ValueView)>, idx: Seq<usize>, j: int) -> ValueView {
    pairs[idx[j] as int].1
}

/// The `j`-th entry that counts names a position below `len`, holds a
/// float, and that float stands at that position.
pub open spec fn bin_written(
    pairs: Seq<(Seq<u8>, ValueView)>,
    idx: Seq<usize>,
    dense: Seq<u64>,
    written: Seq<bool>,
    j: int,
) -> bool {
    let k = key_at(pairs, idx, j);
    &&& index_of_key(k) is Some
    &&& index_of_key(k)->0 < dense.len()
    &&& spec_float(value_at(pairs, idx, j)) is Ok
    &&& dense[index_of_key(k)->0 as int] == float_of(value_at(pairs, idx, j))
    &&& written[index_of_key(k)->0 as int]
}

/// Some entry among the first `n` that count names position `i`.
pub open spec fn bin_named(pairs: Seq<(Seq<u8>, ValueView)>, idx: Seq<usize>, n: int, i: int)
    -> bool {
    exists|j: int| 0 <= j < n && #[trigger] index_of_key(key_at(pairs, idx, j)) == Some(i as usize)
}

proof fn lemma_counted_entry(pairs: Seq<(Seq<u8>, ValueView)>, idx: Seq<usize>, j: int)
    requires
        0 <= j < idx.len(),
        idx[j] < pairs.len(),
        is_last(pairs, idx[j] as int),
    ensures
        pairs_map(pairs).contains_key(key_at(pairs, idx, j)),
        pairs_map(pairs)[key_at(pairs, idx, j)] == value_at(pairs, idx, j),
{
    lemma_pairs_get_last(pairs, idx[j] as int);
    lemma_pairs_map_get(pairs, key_at(pairs, idx, j));
}

proof fn lemma_key_counted(pairs: Seq<(Seq<u8>, ValueView)>, idx: Seq<usize>, k: Seq<u8>) -> (j:
    int)
    requires
        pairs_map(pairs).contains_key(k),
        forall|i: int|
            0 <= i < pairs.len() && is_last(pairs, i) ==> exists|n: int|
                0 <= n < idx.len() && #[trigger] idx[n] == i,
    ensures
        0 <= j < idx.len(),
        idx[j] < pairs.len(),
        key_at(pairs, idx, j) == k,
        pairs_map(pairs)[k] == value_at(pairs, idx, j),
{
    lemma_pairs_map_get(pairs, k);
    let i = lemma_pairs_get_some(pairs, k);
    choose|n: int| 0 <= n < idx.len() && #[trigger] idx[n] == i
}

/// Reads a map of sparse bins into a dense list: as long as the highest
/// position asks, zero where no entry names the position.
pub fn sparse_bins(entries: &Vec<(Cow<'_, [u8]>, Value<'_>)>) -> (r: Result<Vec<u64>, ParseError>)
    ensures
        match r {
            Ok(dense) => spec_sparse_bins(named_view(entries@)) == Ok::<Seq<u64>, ParseError>(
                dense@,
            ),
            Err(e) => spec_sparse_bins(named_view(entries@)) == Err::<Seq<u64>, ParseError>(e),
        },
{
    let idx = last_indices(entries);
    let ghost pairs = entries_view(entries@);
    let ghost m = pairs_map(pairs);
    let mut dense: Vec<u64> = Vec::new();
    let mut written: Vec<bool> = Vec::new();
    let mut n: usize = 0;
    proof {
        lemma_entries_view_index(entries@);
    }
    while n < idx.len()
        invariant
            n <= idx.len(),
            pairs == entries_view(entries@),
            pairs.len() == entries@.len(),
            m == pairs_map(pairs),
            m == named_view(entries@),
            forall|j: int|
                0 <= j < idx@.len() ==> (#[trigger] idx@[j]) < entries@.len() && is_last(
                    pairs,
                    idx@[j] as int,
                ),
            forall|a: int, b: int| 0 <= a < b < idx@.len() ==> idx@[a] < idx@[b],
            dense@.len() == written@.len(),
            forall|j: int| 0 <= j < n ==> #[trigger] bin_written(pairs, idx@, dense@, written@, j),
            forall|i: int|
                0 <= i < written@.len() && #[trigger] written@[i] ==> bin_named(
                    pairs,
                    idx@,
                    n as int,
                    i,
                ),
            forall|i: int| 0 <= i < dense@.len() && !written@[i] ==> #[trigger] dense@[i] == 0,
            forall|a: int, b: int|
                0 <= a < b < n ==> #[trigger] index_of_key(key_at(pairs, idx@, a))
                    != #[trigger] index_of_key(key_at(pairs, idx@, b)),
            dense@.len() == 0 || written@[dense@.len() - 1],
        decreases idx.len() - n,
    {
        let i = idx[n];
        proof {
            lemma_entries_view_index(entries@);
            lemma_counted_entry(pairs, idx@, n as int);
        }
        let ix = match key_index(bytes_of(&entries[i].0)) {
            Some(ix) => ix,
            None => {
                proof {
                    assert(!bin_entry_ok(m, key_at(pairs, idx@, n as int)));
                }
                return Err(
                    ParseError::BadType {
                        name: "SketchStats",
                        expected: ValueKind::Float,
                        actual: ValueKind::Named,
                    },
                );
            },
        };
        let x = match expect_float(&entries[i].1) {
            Ok(x) => x,
            Err(_) => {
                proof {
                    assert(!bin_entry_ok(m, key_at(pairs, idx@, n as int)));
                }
                return Err(
                    ParseError::BadType {
                        name: "SketchStats",
                        expected: ValueKind::Float,
                        actual: ValueKind::Named,
                    },
                );
            },
        };
        let ghost old_len = dense@.len();
        let ghost old_dense = dense@;
        let ghost old_written = written@;
        while dense.len() <= ix
            invariant
                ix < usize::MAX,
                dense@.len() == written@.len(),
                old_dense.len() == old_len,
                old_written.len() == old_len,
                old_len <= dense@.len(),
                dense@.len() <= ix + 1 || dense@.len() == old_len,
                forall|p: int| 0 <= p < old_len ==> dense@[p] == old_dense[p] && written@[p]
                    == old_written[p],
                forall|p: int| old_len <= p < dense@.len() ==> dense@[p] == 0 && !written@[p],
            decreases ix + 1 - dense.len(),
        {
            dense.push(0);
            written.push(false);
        }
        if written[ix] {
            proof {
                assert(ix < old_len);
                assert(old_written[ix as int]);
                assert(bin_named(pairs, idx@, n as int, ix as int));
                let j = choose|j: int|
                    0 <= j < n && #[trigger] index_of_key(key_at(pairs, idx@, j)) == Some(ix);
                lemma_counted_entry(pairs, idx@, j);
                assert(pairs[idx@[n as int] as int].0 != pairs[idx@[j] as int].0);
                assert(holds_bin(m, key_at(pairs, idx@, j), ix as int));
                assert(holds_bin(m, key_at(pairs, idx@, n as int), ix as int));
            }
            return Err(
                ParseError::BadType {
                    name: "SketchStats",
                    expected: ValueKind::Float,
                    actual: ValueKind::Named,
                },
            );
        }
        let ghost mid_dense = dense@;
        let ghost mid_written = written@;
        dense.set(ix, x);
        written.set(ix, true);
        proof {
            assert forall|p: int| 0 <= p < dense@.len() && !written@[p] implies #[trigger] dense@[p]
                == 0 by {
                assert(p != ix);
                assert(dense@[p] == mid_dense[p] && written@[p] == mid_written[p]);
                if p < old_len {
                    assert(mid_dense[p] == old_dense[p] && mid_written[p] == old_written[p]);
                    assert(old_dense[p] == 0);
                }
            }
            assert forall|j: int| 0 <= j < n + 1 implies #[trigger] bin_written(
                pairs,
                idx@,
                dense@,
                written@,
                j,
            ) by {
                if j < n {
                    assert(bin_written(pairs, idx@, old_dense, old_written, j));
                    let kj = index_of_key(key_at(pairs, idx@, j))->0 as int;
                    assert(old_written[kj]);
                    assert(mid_written[kj]);
                    assert(kj != ix);
                }
            }
            assert forall|p: int| 0 <= p < written@.len() && #[trigger] written@[p] implies bin_named(
                pairs,
                idx@,
                n + 1,
                p,
            ) by {
                if p == ix {
                    assert(index_of_key(key_at(pairs, idx@, n as int)) == Some(p as usize));
                } else {
                    assert(mid_written[p]);
                    assert(old_written[p]);
                    assert(bin_named(pairs, idx@, n as int, p));
                    let j = choose|j: int|
                        0 <= j < n && #[trigger] index_of_key(key_at(pairs, idx@, j)) == Some(
                            p as usize,
                        );
                    assert(index_of_key(key_at(pairs, idx@, j)) == Some(p as usize));
                }
            }
            assert forall|a: int, b: int| 0 <= a < b < n + 1 implies #[trigger] index_of_key(
                key_at(pairs, idx@, a),
            ) != #[trigger] index_of_key(key_at(pairs, idx@, b)) by {
                if b == n {
                    assert(bin_written(pairs, idx@, old_dense, old_written, a));
                    let ka = index_of_key(key_at(pairs, idx@, a))->0 as int;
                    assert(old_written[ka]);
                    assert(mid_written[ka]);
                }
            }
        }
        n += 1;
    }
    let total = dense.len();
    proof {
        let len = total as int;
        assert forall|k: Seq<u8>| m.contains_key(k) implies #[trigger] bin_entry_ok(m, k) by {
            let j = lemma_key_counted(pairs, idx@, k);
            assert(bin_written(pairs, idx@, dense@, written@, j));
        }
        assert forall|k1: Seq<u8>, k2: Seq<u8>, i: int| #[trigger]
            holds_bin(m, k1, i) && #[trigger] holds_bin(m, k2, i) implies k1 == k2 by {
            let j1 = lemma_key_counted(pairs, idx@, k1);
            let j2 = lemma_key_counted(pairs, idx@, k2);
            if j1 < j2 {
                assert(index_of_key(key_at(pairs, idx@, j1)) != index_of_key(
                    key_at(pairs, idx@, j2),
                ));
            } else if j2 < j1 {
                assert(index_of_key(key_at(pairs, idx@, j2)) != index_of_key(
                    key_at(pairs, idx@, j1),
                ));
            }
        }
        assert(bins_ok(m));
        assert forall|k: Seq<u8>, i: int| #[trigger] holds_bin(m, k, i) implies i < len by {
            let j = lemma_key_counted(pairs, idx@, k);
            assert(bin_written(pairs, idx@, dense@, written@, j));
        }
        if len > 0 {
            assert(written@[len - 1]);
            assert(bin_named(pairs, idx@, n as int, len - 1));
            let j = choose|j: int|
                0 <= j < n && #[trigger] index_of_key(key_at(pairs, idx@, j)) == Some(
                    (len - 1) as usize,
                );
            lemma_counted_entry(pairs, idx@, j);
            assert(holds_bin(m, key_at(pairs, idx@, j), len - 1));
        }
        assert(is_bins_len(m, len));
        let chosen = choose|c: int| is_bins_len(m, c);
        if chosen < len {
            let k = choose|k: Seq<u8>| #[trigger] holds_bin(m, k, len - 1);
            assert(holds_bin(m, k, len - 1));
        } else if chosen > len {
            let k = choose|k: Seq<u8>| #[trigger] holds_bin(m, k, chosen - 1);
            assert(holds_bin(m, k, chosen - 1));
        }
        assert(bins_len(m) == len);
        assert forall|i: int| 0 <= i < len implies dense@[i] == bin_at(m, i) by {
            if written@[i] {
                assert(bin_named(pairs, idx@, n as int, i));
                let j = choose|j: int|
                    0 <= j < n && #[trigger] index_of_key(key_at(pairs, idx@, j)) == Some(
                        i as usize,
                    );
                lemma_counted_entry(pairs, idx@, j);
                let kj = key_at(pairs, idx@, j);
                assert(holds_bin(m, kj, i));
                let chosen_key = choose|k: Seq<u8>| #[trigger] holds_bin(m, k, i);
                assert(holds_bin(m, chosen_key, i));
                assert(chosen_key == kj);
                assert(bin_written(pairs, idx@, dense@, written@, j));
            } else {
                if exists|k: Seq<u8>| #[trigger] holds_bin(m, k, i) {
                    let k = choose|k: Seq<u8>| #[trigger] holds_bin(m, k, i);
                    let j = lemma_key_counted(pairs, idx@, k);
                    assert(bin_written(pairs, idx@, dense@, written@, j));
                    assert(false);
                }
            }
        }
        assert(dense@ =~= Seq::new(bins_len(m), |i: int| bin_at(m, i)));
    }
    Ok(dense)
}

/// The common part of a tracker: `calls`, `commits`, `officialTime`,
/// `dependent` and `total_time`, read in this order.
pub open spec fn spec_tracker_core(m: Map<Seq<u8>, ValueView>) -> Result<TrackerCore, ParseError> {
    match spec_field_unsigned(m, "TrackerCore", "calls") {
        Err(e) => Err(e),
        Ok(calls) => match spec_field_unsigned(m, "TrackerCore", "commits") {
            Err(e) => Err(e),
            Ok(commits) => match spec_field_opt_float(m, "TrackerCore", "officialTime") {
                Err(e) => Err(e),
                Ok(official_time) => match spec_field_opt_bool(m, "TrackerCore", "dependent") {
                    Err(e) => Err(e),
                    Ok(dependent) => match spec_field_float(m, "TrackerCore", "total_time") {
                        Err(e) => Err(e),
                        Ok(total_time) => Ok(
                            TrackerCore { calls, commits, official_time, dependent, total_time },
                        ),
                    },
                },
            },
        },
    }
}

/// Reads the common part of a tracker from the fields of its table.
pub fn tracker_core(entries: &Vec<(Cow<'_, [u8]>, Value<'_>)>) -> (r: Result<
    TrackerCore,
    ParseError,
>)
    ensures
        r == spec_tracker_core(named_view(entries@)),
{
    let calls = field_unsigned(entries, "TrackerCore", "calls")?;
    let commits = field_unsigned(entries, "TrackerCore", "commits")?;
    let official_time = field_opt_float(entries, "TrackerCore", "officialTime")?;
    let dependent = field_opt_bool(entries, "TrackerCore", "dependent")?;
    let total_time = field_float(entries, "TrackerCore", "total_time")?;
    Ok(TrackerCore { calls, commits, official_time, dependent, total_time })
}

/// The parameters of a sketch: `alpha`, `gamma`, `bin_offset` and
/// `trivial_cutoff`, read in this order.
pub open spec fn spec_sketch_params(v: ValueView) -> Result<SketchParams, ParseError> {
    match spec_fields(v, "SketchParams") {
        Err(e) => Err(e),
        Ok(m) => match spec_field_float(m, "SketchParams", "alpha") {
            Err(e) => Err(e),
            Ok(alpha) => match spec_field_float(m, "SketchParams", "gamma") {
                Err(e) => Err(e),
                Ok(gamma) => match spec_field_int(m, "SketchParams", "bin_offset") {
                    Err(e) => Err(e),
                    Ok(bin_offset) => match spec_field_float(m, "SketchParams", "trivial_cutoff") {
                        Err(e) => Err(e),
                        Ok(trivial_cutoff) => Ok(
                            SketchParams { alpha, gamma, bin_offset, trivial_cutoff },
                        ),
                    },
                },
            },
        },
    }
}

/// Reads the parameters of a sketch.
pub fn sketch_params(v: &Value) -> (r: Result<SketchParams, ParseError>)
    ensures
        r == spec_sketch_params(v.view()),
{
    let entries = expect_fields(v, "SketchParams")?;
    let alpha = field_float(entries, "SketchParams", "alpha")?;
    let gamma = field_float(entries, "SketchParams", "gamma")?;
    let bin_offset = field_int(entries, "SketchParams", "bin_offset")?;
    let trivial_cutoff = field_float(entries, "SketchParams", "trivial_cutoff")?;
    Ok(SketchParams { alpha, gamma, bin_offset, trivial_cutoff })
}

/// The optional map of quantiles among the fields of the statistics.
pub open spec fn spec_quantiles(m: Map<Seq<u8>, ValueView>) -> Result<
    Option<Map<Seq<u8>, u64>>,
    ParseError,
> {
    match spec_present(m, "quantiles") {
        None => Ok(None),
        Some(q) => match spec_float_map(q, "Stats") {
            Ok(map) => Ok(Some(map)),
            Err(e) => Err(e),
        },
    }
}

/// The statistics of an old-style tracker: `mean`, `variance`, `skew`,
/// `samples` and `quantiles`, read in this order.
pub open spec fn spec_stats(v: ValueView) -> Result<StatsView, ParseError> {
    match spec_fields(v, "Stats") {
        Err(e) => Err(e),
        Ok(m) => match spec_field_float(m, "Stats", "mean") {
            Err(e) => Err(e),
            Ok(mean) => match spec_field_opt_float(m, "Stats", "variance") {
                Err(e) => Err(e),
                Ok(variance) => match spec_field_opt_float(m, "Stats", "skew") {
                    Err(e) => Err(e),
                    Ok(skew) => match spec_required(m, "Stats", "samples") {
                        Err(e) => Err(e),
                        Ok(list) => match spec_float_seq(list, "Stats") {
                            Err(e) => Err(e),
                            Ok(samples) => match spec_quantiles(m) {
                                Err(e) => Err(e),
                                Ok(quantiles) => Ok(
                                    StatsView { mean, variance, skew, samples, quantiles },
                                ),
                            },
                        },
                    },
                },
            },
        },
    }
}

/// Reads the statistics of an old-style tracker.
pub fn stats(v: &Value) -> (r: Result<Stats, ParseError>)
    ensures
        match r {
            Ok(s) => spec_stats(v.view()) == Ok::<StatsView, ParseError>(s@),
            Err(e) => spec_stats(v.view()) == Err::<StatsView, ParseError>(e),
        },
{
    let entries = expect_fields(v, "Stats")?;
    let mean = field_float(entries, "Stats", "mean")?;
    let variance = field_opt_float(entries, "Stats", "variance")?;
    let skew = field_opt_float(entries, "Stats", "skew")?;
    let list = required(entries, "Stats", "samples")?;
    let samples = float_seq(list, "Stats")?;
    let quantiles = match present(entries, "quantiles") {
        None => None,
        Some(q) => Some(float_map(q, "Stats")?),
    };
    Ok(Stats { mean, variance, skew, samples, quantiles })
}

/// The bins of a sketch: a sequence of floats, or a keyed table of sparse
/// bins.
pub open spec fn spec_bins(v: ValueView) -> Result<Seq<u64>, ParseError> {
    match v {
        ValueView::Table(TableView::Named(m)) => spec_sparse_bins(m),
        _ => spec_float_seq(v, "SketchStats"),
    }
}

/// The optional bins among the fields of a sketch.
pub open spec fn spec_optional_bins(m: Map<Seq<u8>, ValueView>) -> Result<
    Option<Seq<u64>>,
    ParseError,
> {
    match spec_present(m, "bins") {
        None => Ok(None),
        Some(b) => match spec_bins(b) {
            Ok(dense) => Ok(Some(dense)),
            Err(e) => Err(e),
        },
    }
}

/// The sketch of a new-style tracker: `outliers`, `bins`, `count` and
/// `trivial_count`, read in this order.
pub open spec fn spec_sketch_stats(v: ValueView) -> Result<SketchStatsView, ParseError> {
    match spec_fields(v, "SketchStats") {
        Err(e) => Err(e),
        Ok(m) => match spec_required(m, "SketchStats", "outliers") {
            Err(e) => Err(e),
            Ok(list) => match spec_float_seq(list, "SketchStats") {
                Err(e) => Err(e),
                Ok(outliers) => match spec_optional_bins(m) {
                    Err(e) => Err(e),
                    Ok(bins) => match spec_field_unsigned(m, "SketchStats", "count") {
                        Err(e) => Err(e),
                        Ok(count) => match spec_field_unsigned(m, "SketchStats", "trivial_count") {
                            Err(e) => Err(e),
                            Ok(trivial_count) => Ok(
                                SketchStatsView { outliers, bins, count, trivial_count },
                            ),
                        },
                    },
                },
            },
        },
    }
}

/// Reads the bins of a sketch.
pub fn deserialize_bins(v: &Value) -> (r: Result<Vec<u64>, ParseError>)
    ensures
        match r {
            Ok(dense) => spec_bins(v.view()) == Ok::<Seq<u64>, ParseError>(dense@),
            Err(e) => spec_bins(v.view()) == Err::<Seq<u64>, ParseError>(e),
        },
{
    match v {
        Value::Table(Table::Named(entries)) => sparse_bins(entries),
        _ => float_seq(v, "SketchStats"),
    }
}

/// Reads the sketch of a new-style tracker.
pub fn sketch_stats(v: &Value) -> (r: Result<SketchStats, ParseError>)
    ensures
        match r {
            Ok(s) => spec_sketch_stats(v.view()) == Ok::<SketchStatsView, ParseError>(s@),
            Err(e) => spec_sketch_stats(v.view()) == Err::<SketchStatsView, ParseError>(e),
        },
{
    let entries = expect_fields(v, "SketchStats")?;
    let list = required(entries, "SketchStats", "outliers")?;
    let outliers = float_seq(list, "SketchStats")?;
    let bins = match present(entries, "bins") {
        None => None,
        Some(b) => Some(deserialize_bins(b)?),
    };
    let count = field_unsigned(entries, "SketchStats", "count")?;
    let trivial_count = field_unsigned(entries, "SketchStats", "trivial_count")?;
    Ok(SketchStats { outliers, bins, count, trivial_count })
}

/// A new-style tracker: the sketch under `sketch`, then the common part.
pub open spec fn spec_new_style(m: Map<Seq<u8>, ValueView>) -> Result<TrackerDataView, ParseError> {
    match spec_required(m, "TrackerData", "sketch") {
        Err(e) => Err(e),
        Ok(s) => match spec_sketch_stats(s) {
            Err(e) => Err(e),
            Ok(sketch) => match spec_tracker_core(m) {
                Err(e) => Err(e),
                Ok(core) => Ok(TrackerDataView::NewStyle { sketch, core }),
            },
        },
    }
}

/// An old-style tracker: the statistics under `stats`, the floats under
/// `top5`, then the common part.
pub open spec fn spec_old_style(m: Map<Seq<u8>, ValueView>) -> Result<TrackerDataView, ParseError> {
    match spec_required(m, "TrackerData", "stats") {
        Err(e) => Err(e),
        Ok(s) => match spec_stats(s) {
            Err(e) => Err(e),
            Ok(stats) => match spec_required(m, "TrackerData", "top5") {
                Err(e) => Err(e),
                Ok(list) => match spec_float_seq(list, "TrackerData") {
                    Err(e) => Err(e),
                    Ok(top5) => match spec_tracker_core(m) {
                        Err(e) => Err(e),
                        Ok(core) => Ok(TrackerDataView::OldStyle { stats, top5, core }),
                    },
                },
            },
        },
    }
}

/// What one tracker recorded: it is read as a new-style tracker, and where
/// that fails, for whatever reason, as an old-style one.
pub open spec fn spec_tracker_data(v: ValueView) -> Result<TrackerDataView, ParseError> {
    match spec_fields(v, "TrackerData") {
        Err(e) => Err(e),
        Ok(m) => match spec_new_style(m) {
            Ok(t) => Ok(t),
            Err(_) => spec_old_style(m),
        },
    }
}

/// Reads a tracker as a new-style one.
pub fn new_style(entries: &Vec<(Cow<'_, [u8]>, Value<'_>)>) -> (r: Result<TrackerData, ParseError>)
    ensures
        match r {
            Ok(t) => spec_new_style(named_view(entries@)) == Ok::<TrackerDataView, ParseError>(
                t@,
            ),
            Err(e) => spec_new_style(named_view(entries@)) == Err::<TrackerDataView, ParseError>(
                e,
            ),
        },
{
    let s = required(entries, "TrackerData", "sketch")?;
    let sketch = sketch_stats(s)?;
    let core = tracker_core(entries)?;
    Ok(TrackerData::NewStyle { sketch, core })
}

/// Reads a tracker as an old-style one.
pub fn old_style(entries: &Vec<(Cow<'_, [u8]>, Value<'_>)>) -> (r: Result<TrackerData, ParseError>)
    ensures
        match r {
            Ok(t) => spec_old_style(named_view(entries@)) == Ok::<TrackerDataView, ParseError>(
                t@,
            ),
            Err(e) => spec_old_style(named_view(entries@)) == Err::<TrackerDataView, ParseError>(
                e,
            ),
        },
{
    let s = required(entries, "TrackerData", "stats")?;
    let stats = stats(s)?;
    let list = required(entries, "TrackerData", "top5")?;
    let top5 = float_seq(list, "TrackerData")?;
    let core = tracker_core(entries)?;
    Ok(TrackerData::OldStyle { stats, top5, core })
}

/// Reads what one tracker recorded.
pub fn tracker_data(v: &Value) -> (r: Result<TrackerData, ParseError>)
    ensures
        match r {
            Ok(t) => spec_tracker_data(v.view()) == Ok::<TrackerDataView, ParseError>(t@),
            Err(e) => spec_tracker_data(v.view()) == Err::<TrackerDataView, ParseError>(e),
        },
{
    let entries = expect_fields(v, "TrackerData")?;
    match new_style(entries) {
        Ok(t) => Ok(t),
        Err(_) => old_style(entries),
    }
}

/// A decoded recording: the trackers by script, the trackers of other
/// addons, the tracker of the frame delay, and the parameters of the
/// sketches. The two lists of entries stand for maps; the derived `==`
/// compares them entry by entry.
#[derive(Debug, Clone, PartialEq, Eq)]
pub struct ParsedRecording<'a> {
    pub scripts: Vec<(Cow<'a, [u8]>, TrackerData)>,
    pub externals: Option<Vec<(Cow<'a, [u8]>, TrackerData)>>,
    pub on_update_delay: TrackerData,
    pub sketch_params: Option<SketchParams>,
}

/// A decoded recording, with its trackers as maps.
pub struct ParsedRecordingView {
    pub scripts: Map<Seq<u8>, TrackerDataView>,
    pub externals: Option<Map<Seq<u8>, TrackerDataView>>,
    pub on_update_delay: TrackerDataView,
    pub sketch_params: Option<SketchParams>,
}

/// The pairs of a list of trackers.
pub open spec fn tracker_pairs<'a>(e: Seq<(Cow<'a, [u8]>, TrackerData)>) -> Seq<
    (Seq<u8>, TrackerDataView),
> {
    e.map_values(|x: (Cow<'a, [u8]>, TrackerData)| (x.0@, x.1@))
}

impl<'a> ParsedRecording<'a> {
    /// The recording apart from how the lists are stored.
    pub open spec fn view(&self) -> ParsedRecordingView {
        ParsedRecordingView {
            scripts: pairs_map(tracker_pairs(self.scripts@)),
            externals: match self.externals {
                Some(e) => Some(pairs_map(tracker_pairs(e@))),
                None => None,
            },
            on_update_delay: self.on_update_delay@,
            sketch_params: self.sketch_params,
        }
    }
}

/// The tracker of a value that is known to give one.
pub open spec fn tracker_of(v: ValueView) -> TrackerDataView {
    spec_tracker_data(v)->Ok_0
}

/// A map of trackers accepts a keyed table whose values are all trackers.
pub open spec fn spec_tracker_map(v: ValueView, name: &'static str) -> Result<
    Map<Seq<u8>, TrackerDataView>,
    ParseError,
> {
    match spec_fields(v, name) {
        Err(e) => Err(e),
        Ok(m) => if forall|k: Seq<u8>|
            m.contains_key(k) ==> (#[trigger] spec_tracker_data(m[k])) is Ok {
            Ok(m.map_values(|x: ValueView| tracker_of(x)))
        } else {
            Err(bad_entries(name, ValueKind::Named))
        },
    }
}

/// Reads a map of trackers. The keys are copied.
pub fn tracker_map<'a>(v: &Value, name: &'static str) -> (r: Result<
    Vec<(Cow<'a, [u8]>, TrackerData)>,
    ParseError,
>)
    ensures
        match r {
            Ok(t) => spec_tracker_map(v.view(), name) == Ok::<
                Map<Seq<u8>, TrackerDataView>,
                ParseError,
            >(pairs_map(tracker_pairs(t@))),
            Err(e) => spec_tracker_map(v.view(), name) == Err::<
                Map<Seq<u8>, TrackerDataView>,
                ParseError,
            >(e),
        },
{
    let entries = expect_fields(v, name)?;
    let idx = last_indices(entries);
    let ghost pairs = entries_view(entries@);
    let ghost m = pairs_map(pairs);
    let mut out: Vec<(Cow<'a, [u8]>, TrackerData)> = Vec::new();
    let mut n: usize = 0;
    proof {
        lemma_entries_view_index(entries@);
    }
    while n < idx.len()
        invariant
            n <= idx.len(),
            pairs == entries_view(entries@),
            m == pairs_map(pairs),
            pairs.len() == entries@.len(),
            spec_fields(v.view(), name) == Ok::<Map<Seq<u8>, ValueView>, ParseError>(m),
            forall|j: int|
                0 <= j < idx@.len() ==> (#[trigger] idx@[j]) < entries@.len() && is_last(
                    pairs,
                    idx@[j] as int,
                ),
            out@.len() == n,
            forall|j: int|
                0 <= j < n ==> (#[trigger] tracker_pairs(out@)[j]) == (
                    pairs[idx@[j] as int].0,
                    tracker_of(pairs[idx@[j] as int].1),
                ) && spec_tracker_data(pairs[idx@[j] as int].1) is Ok,
        decreases idx.len() - n,
    {
        let i = idx[n];
        proof {
            lemma_entries_view_index(entries@);
            lemma_pairs_get_last(pairs, i as int);
            lemma_pairs_map_get(pairs, pairs[i as int].0);
        }
        match tracker_data(&entries[i].1) {
            Ok(x) => {
                let key: Cow<'a, [u8]> = Cow::Owned(slice_to_vec(bytes_of(&entries[i].0)));
                let ghost before = out@;
                out.push((key, x));
                assert forall|j: int| 0 <= j < n + 1 implies (#[trigger] tracker_pairs(out@)[j])
                    == (pairs[idx@[j] as int].0, tracker_of(pairs[idx@[j] as int].1))
                    && spec_tracker_data(pairs[idx@[j] as int].1) is Ok by {
                    if j < n {
                        assert(tracker_pairs(out@)[j] == tracker_pairs(before)[j]);
                    }
                }
            },
            Err(_) => {
                proof {
                    assert(m.contains_key(pairs[i as int].0));
                    assert(spec_tracker_data(m[pairs[i as int].0]) is Err);
                }
                return Err(
                    ParseError::BadType {
                        name,
                        expected: ValueKind::Named,
                        actual: ValueKind::Named,
                    },
                );
            },
        }
        n += 1;
    }
    proof {
        lemma_entries_view_index(entries@);
        lemma_mapped_pairs(pairs, idx@, tracker_pairs(out@), |x: ValueView| tracker_of(x));
        assert forall|k: Seq<u8>| m.contains_key(k) implies (#[trigger] spec_tracker_data(
            m[k],
        )) is Ok by {
            lemma_pairs_map_get(pairs, k);
            let i = lemma_pairs_get_some(pairs, k);
            let j = choose|j: int| 0 <= j < idx@.len() && #[trigger] idx@[j] == i;
            assert(tracker_pairs(out@)[j] == (pairs[i].0, tracker_of(pairs[i].1)));
        }
    }
    Ok(out)
}

/// The optional trackers of other addons among the fields of a recording.
pub open spec fn spec_externals(m: Map<Seq<u8>, ValueView>) -> Result<
    Option<Map<Seq<u8>, TrackerDataView>>,
    ParseError,
> {
    match spec_present(m, "externals") {
        None => Ok(None),
        Some(e) => match spec_tracker_map(e, "ParsedRecording") {
            Ok(map) => Ok(Some(map)),
            Err(e) => Err(e),
        },
    }
}

/// The optional parameters of the sketches among the fields of a recording.
pub open spec fn spec_optional_params(m: Map<Seq<u8>, ValueView>) -> Result<
    Option<SketchParams>,
    ParseError,
> {
    match spec_present(m, "sketch_params") {
        None => Ok(None),
        Some(p) => match spec_sketch_params(p) {
            Ok(params) => Ok(Some(params)),
            Err(e) => Err(e),
        },
    }
}

/// A decoded recording: `scripts`, `externals`, `onUpdateDelay` and
/// `sketch_params`, read in this order. Fields that the record does not
/// name are passed over.
pub open spec fn spec_parsed_recording(v: ValueView) -> Result<ParsedRecordingView, ParseError> {
    match spec_fields(v, "ParsedRecording") {
        Err(e) => Err(e),
        Ok(m) => match spec_required(m, "ParsedRecording", "scripts") {
            Err(e) => Err(e),
            Ok(s) => match spec_tracker_map(s, "ParsedRecording") {
                Err(e) => Err(e),
                Ok(scripts) => match spec_externals(m) {
                    Err(e) => Err(e),
                    Ok(externals) => match spec_required(m, "ParsedRecording", "onUpdateDelay") {
                        Err(e) => Err(e),
                        Ok(d) => match spec_tracker_data(d) {
                            Err(e) => Err(e),
                            Ok(on_update_delay) => match spec_optional_params(m) {
                                Err(e) => Err(e),
                                Ok(sketch_params) => Ok(
                                    ParsedRecordingView {
                                        scripts,
                                        externals,
                                        on_update_delay,
                                        sketch_params,
                                    },
                                ),
                            },
                        },
                    },
                },
            },
        },
    }
}

/// Reads a decoded recording. Nothing in it borrows from the value.
pub fn parsed_recording<'a>(v: &Value) -> (r: Result<ParsedRecording<'a>, ParseError>)
    ensures
        match r {
            Ok(p) => spec_parsed_recording(v.view()) == Ok::<ParsedRecordingView, ParseError>(p@),
            Err(e) => spec_parsed_recording(v.view()) == Err::<ParsedRecordingView, ParseError>(
                e,
            ),
        },
{
    let entries = expect_fields(v, "ParsedRecording")?;
    let s = required(entries, "ParsedRecording", "scripts")?;
    let scripts = tracker_map(s, "ParsedRecording")?;
    let externals = match present(entries, "externals") {
        None => None,
        Some(e) => Some(tracker_map(e, "ParsedRecording")?),
    };
    let d = required(entries, "ParsedRecording", "onUpdateDelay")?;
    let on_update_delay = tracker_data(d)?;
    let sketch_params = match present(entries, "sketch_params") {
        None => None,
        Some(p) => Some(sketch_params(p)?),
    };
    Ok(ParsedRecording { scripts, externals, on_update_delay, sketch_params })
}

/// What was going on while a recording was made.
#[derive(Debug, Clone, PartialEq, Eq)]
#[allow(non_snake_case)]
pub enum Encounter {
    Manual { startTime: u64, endTime: u64 },
    Raid {
        startTime: u64,
        endTime: u64,
        encounterName: String,
        encounterId: u64,
        success: bool,
        difficultyId: u64,
        groupSize: u64,
    },
    Dungeon { startTime: u64, endTime: u64, success: bool, mapId: u64, groupSize: u64 },
}

/// An encounter, with the name of a raid encounter as the bytes of its text.
#[allow(non_snake_case)]
pub enum EncounterView {
    Manual { startTime: u64, endTime: u64 },
    Raid {
        startTime: u64,
        endTime: u64,
        encounterName: Seq<u8>,
        encounterId: u64,
        success: bool,
        difficultyId: u64,
        groupSize: u64,
    },
    Dungeon { startTime: u64, endTime: u64, success: bool, mapId: u64, groupSize: u64 },
}

impl Encounter {
    /// The encounter, with the name of a raid encounter as its bytes.
    pub open spec fn view(&self) -> EncounterView {
        match self {
            Encounter::Manual { startTime, endTime } => EncounterView::Manual {
                startTime: *startTime,
                endTime: *endTime,
            },
            Encounter::Raid {
                startTime,
                endTime,
                encounterName,
                encounterId,
                success,
                difficultyId,
                groupSize,
            } => EncounterView::Raid {
                startTime: *startTime,
                endTime: *endTime,
                encounterName: vstd::utf8::encode_utf8(encounterName@),
                encounterId: *encounterId,
                success: *success,
                difficultyId: *difficultyId,
                groupSize: *groupSize,
            },
            Encounter::Dungeon { startTime, endTime, success, mapId, groupSize } => {
                EncounterView::Dungeon {
                    startTime: *startTime,
                    endTime: *endTime,
                    success: *success,
                    mapId: *mapId,
                    groupSize: *groupSize,
                }
            },
        }
    }
}

/// The failure of an encounter whose `kind` is none of the three kinds, or
/// whose name is no text.
pub open spec fn bad_text() -> ParseError {
    ParseError::BadType {
        name: "Encounter",
        expected: ValueKind::String,
        actual: ValueKind::String,
    }
}

/// The name of a raid encounter: a string that is valid UTF-8.
pub open spec fn spec_encounter_name(m: Map<Seq<u8>, ValueView>) -> Result<Seq<u8>, ParseError> {
    match spec_field_text(m, "Encounter", "encounterName") {
        Err(e) => Err(e),
        Ok(name) => if valid_utf8(name) {
            Ok(name)
        } else {
            Err(bad_text())
        },
    }
}

/// A recording made by hand: `startTime`, `endTime`.
pub open spec fn spec_manual(m: Map<Seq<u8>, ValueView>) -> Result<EncounterView, ParseError> {
    match spec_field_unsigned(m, "Encounter", "startTime") {
        Err(e) => Err(e),
        Ok(startTime) => match spec_field_unsigned(m, "Encounter", "endTime") {
            Err(e) => Err(e),
            Ok(endTime) => Ok(EncounterView::Manual { startTime, endTime }),
        },
    }
}

/// A raid encounter: `startTime`, `endTime`, `encounterName`,
/// `encounterId`, `success`, `difficultyId`, `groupSize`.
pub open spec fn spec_raid(m: Map<Seq<u8>, ValueView>) -> Result<EncounterView, ParseError> {
    match spec_field_unsigned(m, "Encounter", "startTime") {
        Err(e) => Err(e),
        Ok(startTime) => match spec_field_unsigned(m, "Encounter", "endTime") {
            Err(e) => Err(e),
            Ok(endTime) => match spec_encounter_name(m) {
                Err(e) => Err(e),
                Ok(encounterName) => match spec_field_unsigned(m, "Encounter", "encounterId") {
                    Err(e) => Err(e),
                    Ok(encounterId) => match spec_field_bool(m, "Encounter", "success") {
                        Err(e) => Err(e),
                        Ok(success) => match spec_field_unsigned(m, "Encounter", "difficultyId") {
                            Err(e) => Err(e),
                            Ok(difficultyId) => match spec_field_unsigned(
                                m,
                                "Encounter",
                                "groupSize",
                            ) {
                                Err(e) => Err(e),
                                Ok(groupSize) => Ok(
                                    EncounterView::Raid {
                                        startTime,
                                        endTime,
                                        encounterName,
                                        encounterId,
                                        success,
                                        difficultyId,
                                        groupSize,
                                    },
                                ),
                            },
                        },
                    },
                },
            },
        },
    }
}

/// A dungeon run: `startTime`, `endTime`, `success`, `mapId`, `groupSize`.
pub open spec fn spec_dungeon(m: Map<Seq<u8>, ValueView>) -> Result<EncounterView, ParseError> {
    match spec_field_unsigned(m, "Encounter", "startTime") {
        Err(e) => Err(e),
        Ok(startTime) => match spec_field_unsigned(m, "Encounter", "endTime") {
            Err(e) => Err(e),
            Ok(endTime) => match spec_field_bool(m, "Encounter", "success") {
                Err(e) => Err(e),
                Ok(success) => match spec_field_unsigned(m, "Encounter", "mapId") {
                    Err(e) => Err(e),
                    Ok(mapId) => match spec_field_unsigned(m, "Encounter", "groupSize") {
                        Err(e) => Err(e),
                        Ok(groupSize) => Ok(
                            EncounterView::Dungeon { startTime, endTime, success, mapId, groupSize },
                        ),
                    },
                },
            },
        },
    }
}

/// An encounter: the string under `kind` says which of the three it is,
/// `manual`, `raid` or `mythicplus`.
pub open spec fn spec_encounter(v: ValueView) -> Result<EncounterView, ParseError> {
    match spec_fields(v, "Encounter") {
        Err(e) => Err(e),
        Ok(m) => match spec_field_text(m, "Encounter", "kind") {
            Err(e) => Err(e),
            Ok(kind) => if kind == "manual".spec_bytes() {
                spec_manual(m)
            } else if kind == "raid".spec_bytes() {
                spec_raid(m)
            } else if kind == "mythicplus".spec_bytes() {
                spec_dungeon(m)
            } else {
                Err(bad_text())
            },
        },
    }
}

/// Reads an encounter.
#[allow(non_snake_case)]
pub fn encounter(v: &Value) -> (r: Result<Encounter, ParseError>)
    ensures
        match r {
            Ok(e) => spec_encounter(v.view()) == Ok::<EncounterView, ParseError>(e@),
            Err(e) => spec_encounter(v.view()) == Err::<EncounterView, ParseError>(e),
        },
{
    let entries = expect_fields(v, "Encounter")?;
    let kind = bytes_of(field_text(entries, "Encounter", "kind")?);
    if bytes_eq(kind, "manual".as_bytes()) {
        let startTime = field_unsigned(entries, "Encounter", "startTime")?;
        let endTime = field_unsigned(entries, "Encounter", "endTime")?;
        Ok(Encounter::Manual { startTime, endTime })
    } else if bytes_eq(kind, "raid".as_bytes()) {
        let startTime = field_unsigned(entries, "Encounter", "startTime")?;
        let endTime = field_unsigned(entries, "Encounter", "endTime")?;
        let raw = field_text(entries, "Encounter", "encounterName")?;
        let encounterName = match utf8_text(bytes_of(raw)) {
            Some(text) => text.to_owned(),
            None => {
                return Err(
                    ParseError::BadType {
                        name: "Encounter",
                        expected: ValueKind::String,
                        actual: ValueKind::String,
                    },
                );
            },
        };
        let encounterId = field_unsigned(entries, "Encounter", "encounterId")?;
        let success = field_bool(entries, "Encounter", "success")?;
        let difficultyId = field_unsigned(entries, "Encounter", "difficultyId")?;
        let groupSize = field_unsigned(entries, "Encounter", "groupSize")?;
        Ok(
            Encounter::Raid {
                startTime,
                endTime,
                encounterName,
                encounterId,
                success,
                difficultyId,
                groupSize,
            },
        )
    } else if bytes_eq(kind, "mythicplus".as_bytes()) {
        let startTime = field_unsigned(entries, "Encounter", "startTime")?;
        let endTime = field_unsigned(entries, "Encounter", "endTime")?;
        let success = field_bool(entries, "Encounter", "success")?;
        let mapId = field_unsigned(entries, "Encounter", "mapId")?;
        let groupSize = field_unsigned(entries, "Encounter", "groupSize")?;
        Ok(Encounter::Dungeon { startTime, endTime, success, mapId, groupSize })
    } else {
        Err(
            ParseError::BadType {
                name: "Encounter",
                expected: ValueKind::String,
                actual: ValueKind::String,
            },
        )
    }
}

/// The data of a recording: the printable blob as it was saved, or the
/// recording decoded from it.
#[derive(Debug, PartialEq, Eq)]
pub enum RecordingData<'a> {
    Unparsed(Cow<'a, [u8]>),
    Parsed(ParsedRecording<'a>),
}

/// The data of a recording, by the view of what it holds.
pub enum RecordingDataView {
    Unparsed(Seq<u8>),
    Parsed(ParsedRecordingView),
}

impl<'a> RecordingData<'a> {
    /// The data apart from where its bytes are stored.
    pub open spec fn view(&self) -> RecordingDataView {
        match self {
            RecordingData::Unparsed(raw) => RecordingDataView::Unparsed(raw@),
            RecordingData::Parsed(p) => RecordingDataView::Parsed(p@),
        }
    }
}

/// One profiling session.
#[derive(Debug, PartialEq, Eq)]
pub struct Recording<'a> {
    pub encounter: Encounter,
    pub data: RecordingData<'a>,
}

/// A recording, by the views of its parts.
pub struct RecordingView {
    pub encounter: EncounterView,
    pub data: RecordingDataView,
}

impl<'a> Recording<'a> {
    /// The recording apart from where its bytes are stored.
    pub open spec fn view(&self) -> RecordingView {
        RecordingView { encounter: self.encounter@, data: self.data@ }
    }
}

/// All that a saved-variables file holds.
#[derive(Debug, PartialEq, Eq)]
pub struct SavedVariables<'a> {
    pub recordings: Vec<Recording<'a>>,
}

/// A file, with its recordings as a sequence of views.
pub struct SavedVariablesView {
    pub recordings: Seq<RecordingView>,
}

impl<'a> SavedVariables<'a> {
    /// The file apart from where its bytes are stored.
    pub open spec fn view(&self) -> SavedVariablesView {
        SavedVariablesView { recordings: recordings_view(self.recordings@) }
    }
}

impl<'a> SavedVariables<'a> {
    /// How many recordings the file holds.
    pub fn length(&self) -> (r: usize)
        ensures
            r == self.recordings@.len(),
    {
        self.recordings.len()
    }

    /// The recording at `index`, if there is one.
    pub fn get(&self, index: usize) -> (r: Option<&Recording<'a>>)
        ensures
            match r {
                Some(rec) => index < self.recordings@.len() && *rec == self.recordings@[index as int],
                None => index >= self.recordings@.len(),
            },
    {
        if index < self.recordings.len() {
            Some(&self.recordings[index])
        } else {
            None
        }
    }
}

impl<'a> Recording<'a> {
    /// What was going on while the recording was made.
    pub fn encounter(&self) -> (r: &Encounter)
        ensures
            *r == self.encounter,
    {
        &self.encounter
    }
}

/// The data of a recording: a string is the blob as it was saved, anything
/// else must be a decoded recording.
pub open spec fn spec_recording_data(v: ValueView) -> Result<RecordingDataView, ParseError> {
    match v {
        ValueView::String(raw) => Ok(RecordingDataView::Unparsed(raw)),
        _ => match spec_parsed_recording(v) {
            Ok(p) => Ok(RecordingDataView::Parsed(p)),
            Err(e) => Err(e),
        },
    }
}

/// One recording: `encounter`, then `data`.
pub open spec fn spec_recording(v: ValueView) -> Result<RecordingView, ParseError> {
    match spec_fields(v, "Recording") {
        Err(e) => Err(e),
        Ok(m) => match spec_required(m, "Recording", "encounter") {
            Err(e) => Err(e),
            Ok(e) => match spec_encounter(e) {
                Err(e) => Err(e),
                Ok(encounter) => match spec_required(m, "Recording", "data") {
                    Err(e) => Err(e),
                    Ok(d) => match spec_recording_data(d) {
                        Err(e) => Err(e),
                        Ok(data) => Ok(RecordingView { encounter, data }),
                    },
                },
            },
        },
    }
}

/// The recordings of a list of values: the first value that is no
/// recording is reported.
pub open spec fn spec_recordings(a: Seq<ValueView>) -> Result<Seq<RecordingView>, ParseError>
    decreases a.len(),
{
    if a.len() == 0 {
        Ok(Seq::empty())
    } else {
        match spec_recordings(a.drop_last()) {
            Err(e) => Err(e),
            Ok(front) => match spec_recording(a.last()) {
                Ok(x) => Ok(front.push(x)),
                Err(e) => Err(e),
            },
        }
    }
}

/// The items of a table without keys. The items of a float array are its
/// floats.
pub open spec fn spec_elements(v: ValueView, name: &'static str) -> Result<
    Seq<ValueView>,
    ParseError,
> {
    match v {
        ValueView::Table(TableView::Empty) => Ok(Seq::empty()),
        ValueView::Table(TableView::FloatArray(bits)) => Ok(
            bits.map_values(|x: u64| ValueView::Float(x)),
        ),
        ValueView::Table(TableView::Array(a)) => Ok(a),
        ValueView::Table(TableView::MixedTable { .. }) => Err(ParseError::MixedTable),
        _ => Err(ParseError::BadType { name, expected: ValueKind::Array, actual: kind_of(v) }),
    }
}

/// All that a file holds: the recordings under `recordings`.
pub open spec fn spec_saved_variables(v: ValueView) -> Result<SavedVariablesView, ParseError> {
    match spec_fields(v, "SavedVariables") {
        Err(e) => Err(e),
        Ok(m) => match spec_required(m, "SavedVariables", "recordings") {
            Err(e) => Err(e),
            Ok(list) => match spec_recording_list(list) {
                Err(e) => Err(e),
                Ok(recordings) => Ok(SavedVariablesView { recordings }),
            },
        },
    }
}

/// Reads the data of a recording. A blob stays where the value has it.
pub fn recording_data<'a>(v: &Value<'a>) -> (r: Result<RecordingData<'a>, ParseError>)
    ensures
        match r {
            Ok(d) => spec_recording_data(v.view()) == Ok::<RecordingDataView, ParseError>(d@),
            Err(e) => spec_recording_data(v.view()) == Err::<RecordingDataView, ParseError>(e),
        },
{
    match v {
        Value::String(raw) => Ok(RecordingData::Unparsed(copy_bytes(raw))),
        _ => Ok(RecordingData::Parsed(parsed_recording(v)?)),
    }
}

/// Reads one recording.
pub fn recording<'a>(v: &Value<'a>) -> (r: Result<Recording<'a>, ParseError>)
    ensures
        match r {
            Ok(x) => spec_recording(v.view()) == Ok::<RecordingView, ParseError>(x@),
            Err(e) => spec_recording(v.view()) == Err::<RecordingView, ParseError>(e),
        },
{
    let entries = expect_fields(v, "Recording")?;
    let e = required(entries, "Recording", "encounter")?;
    let encounter = encounter(e)?;
    let d = required(entries, "Recording", "data")?;
    let data = recording_data(d)?;
    Ok(Recording { encounter, data })
}

proof fn lemma_recordings_prefix(a: Seq<ValueView>, n: int)
    requires
        0 <= n <= a.len(),
        spec_recordings(a.subrange(0, n)) is Err,
    ensures
        spec_recordings(a) == spec_recordings(a.subrange(0, n)),
    decreases a.len() - n,
{
    if n < a.len() {
        assert(a.subrange(0, n + 1).drop_last() =~= a.subrange(0, n));
        lemma_recordings_prefix(a, n + 1);
    } else {
        assert(a.subrange(0, n) =~= a);
    }
}

/// The recordings that a table without keys holds.
pub open spec fn spec_recording_list(v: ValueView) -> Result<Seq<RecordingView>, ParseError> {
    match spec_elements(v, "SavedVariables") {
        Err(e) => Err(e),
        Ok(items) => spec_recordings(items),
    }
}

/// The views of a list of recordings.
pub open spec fn recordings_view<'a>(r: Seq<Recording<'a>>) -> Seq<RecordingView> {
    r.map_values(|x: Recording<'a>| x@)
}

proof fn lemma_floats_are_no_recordings(bits: Seq<u64>)
    requires
        bits.len() > 0,
    ensures
        spec_recordings(bits.map_values(|x: u64| ValueView::Float(x))) == Err::<
            Seq<RecordingView>,
            ParseError,
        >(
            ParseError::BadType {
                name: "Recording",
                expected: ValueKind::Named,
                actual: ValueKind::Float,
            },
        ),
{
    let a = bits.map_values(|x: u64| ValueView::Float(x));
    assert(a.subrange(0, 1).drop_last() =~= Seq::<ValueView>::empty());
    assert(a.subrange(0, 1).last() == ValueView::Float(bits[0]));
    assert(spec_recordings(a.subrange(0, 1).drop_last()) == Ok::<Seq<RecordingView>, ParseError>(
        Seq::empty(),
    ));
    assert(spec_recording(ValueView::Float(bits[0])) is Err);
    lemma_recordings_prefix(a, 1);
}

/// Reads the recordings of a list of values.
pub fn recordings_of<'a>(values: &Vec<Value<'a>>) -> (r: Result<Vec<Recording<'a>>, ParseError>)
    ensures
        match r {
            Ok(x) => spec_recordings(values_view(values@)) == Ok::<
                Seq<RecordingView>,
                ParseError,
            >(recordings_view(x@)),
            Err(e) => spec_recordings(values_view(values@)) == Err::<
                Seq<RecordingView>,
                ParseError,
            >(e),
        },
{
    let mut out: Vec<Recording<'a>> = Vec::new();
    let mut i: usize = 0;
    let ghost a = values_view(values@);
    proof {
        lemma_values_view_index(values@);
        assert(a.subrange(0, 0) =~= Seq::<ValueView>::empty());
        assert(recordings_view(out@) =~= Seq::<RecordingView>::empty());
    }
    while i < values.len()
        invariant
            i <= values.len(),
            a == values_view(values@),
            a.len() == values@.len(),
            spec_recordings(a.subrange(0, i as int)) == Ok::<Seq<RecordingView>, ParseError>(
                recordings_view(out@),
            ),
        decreases values.len() - i,
    {
        proof {
            lemma_values_view_index(values@);
            assert(a.subrange(0, i + 1).drop_last() =~= a.subrange(0, i as int));
            assert(a.subrange(0, i + 1).last() == values@[i as int].view());
        }
        match recording(&values[i]) {
            Ok(x) => {
                let ghost before = out@;
                out.push(x);
                assert(recordings_view(out@) =~= recordings_view(before).push(x@));
            },
            Err(e) => {
                proof {
                    lemma_recordings_prefix(a, i + 1);
                }
                return Err(e);
            },
        }
        i += 1;
    }
    proof {
        assert(a.subrange(0, i as int) =~= a);
    }
    Ok(out)
}

/// Reads the recordings that a table without keys holds.
pub fn recording_list<'a>(list: &Value<'a>) -> (r: Result<Vec<Recording<'a>>, ParseError>)
    ensures
        match r {
            Ok(x) => spec_recording_list(list.view()) == Ok::<Seq<RecordingView>, ParseError>(
                recordings_view(x@),
            ),
            Err(e) => spec_recording_list(list.view()) == Err::<Seq<RecordingView>, ParseError>(
                e,
            ),
        },
{
    match list {
        Value::Table(Table::Empty) => {
            let out: Vec<Recording<'a>> = Vec::new();
            assert(recordings_view(out@) =~= Seq::<RecordingView>::empty());
            Ok(out)
        },
        Value::Table(Table::FloatArray(bits)) => {
            if bits.len() == 0 {
                let out: Vec<Recording<'a>> = Vec::new();
                assert(recordings_view(out@) =~= Seq::<RecordingView>::empty());
                assert(bits@.map_values(|x: u64| ValueView::Float(x)) =~= Seq::<
                    ValueView,
                >::empty());
                Ok(out)
            } else {
                proof {
                    lemma_floats_are_no_recordings(bits@);
                }
                Err(
                    ParseError::BadType {
                        name: "Recording",
                        expected: ValueKind::Named,
                        actual: ValueKind::Float,
                    },
                )
            }
        },
        Value::Table(Table::Array(values)) => recordings_of(values),
        Value::Table(Table::MixedTable { .. }) => Err(ParseError::MixedTable),
        _ => Err(
            ParseError::BadType {
                name: "SavedVariables",
                expected: ValueKind::Array,
                actual: value_kind(list),
            },
        ),
    }
}

/// Reads all that a file holds.
pub fn saved_variables<'a>(v: &Value<'a>) -> (r: Result<SavedVariables<'a>, ParseError>)
    ensures
        match r {
            Ok(x) => spec_saved_variables(v.view()) == Ok::<SavedVariablesView, ParseError>(x@),
            Err(e) => spec_saved_variables(v.view()) == Err::<SavedVariablesView, ParseError>(e),
        },
{
    let entries = expect_fields(v, "SavedVariables")?;
    let list = required(entries, "SavedVariables", "recordings")?;
    let recordings = recording_list(list)?;
    Ok(SavedVariables { recordings })
}

/// The array that holds the floats of a float array one by one.
pub open spec fn array_of_floats(bits: Seq<u64>) -> ValueView {
    ValueView::Table(TableView::Array(bits.map_values(|x: u64| ValueView::Float(x))))
}

proof fn lemma_floats_of_floats(bits: Seq<u64>, name: &'static str)
    ensures
        spec_floats(bits.map_values(|x: u64| ValueView::Float(x)), name) == Ok::<
            Seq<u64>,
            ParseError,
        >(bits),
    decreases bits.len(),
{
    let a = bits.map_values(|x: u64| ValueView::Float(x));
    if bits.len() == 0 {
        assert(bits =~= Seq::<u64>::empty());
    } else {
        lemma_floats_of_floats(bits.drop_last(), name);
        assert(a.drop_last() =~= bits.drop_last().map_values(|x: u64| ValueView::Float(x)));
        assert(bits.drop_last().push(bits.last()) =~= bits);
    }
}

/// A float array and the array that holds the same floats one by one are
/// read alike: whatever record or sequence either is read as, the outcome
/// is the same, be it a result or a failure.
pub proof fn lemma_float_array_reads_as_array(bits: Seq<u64>, name: &'static str)
    ensures
        ({
            let packed = ValueView::Table(TableView::FloatArray(bits));
            let plain = array_of_floats(bits);
            &&& kind_of(packed) == kind_of(plain)
            &&& spec_elements(packed, name) == spec_elements(plain, name)
            &&& spec_float_seq(packed, name) == spec_float_seq(plain, name)
            &&& spec_float_map(packed, name) == spec_float_map(plain, name)
            &&& spec_bins(packed) == spec_bins(plain)
            &&& spec_stats(packed) == spec_stats(plain)
            &&& spec_sketch_stats(packed) == spec_sketch_stats(plain)
            &&& spec_sketch_params(packed) == spec_sketch_params(plain)
            &&& spec_tracker_data(packed) == spec_tracker_data(plain)
            &&& spec_tracker_map(packed, name) == spec_tracker_map(plain, name)
            &&& spec_parsed_recording(packed) == spec_parsed_recording(plain)
            &&& spec_encounter(packed) == spec_encounter(plain)
            &&& spec_recording_data(packed) == spec_recording_data(plain)
            &&& spec_recording(packed) == spec_recording(plain)
            &&& spec_recording_list(packed) == spec_recording_list(plain)
            &&& spec_saved_variables(packed) == spec_saved_variables(plain)
        }),
{
    lemma_floats_of_floats(bits, name);
    lemma_floats_of_floats(bits, "SketchStats");
}

} // verus!
