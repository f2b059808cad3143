//! The value tree that both decoders produce: scalars, byte strings and the
//! five shapes of table.

use std::borrow::Cow;
use vstd::prelude::*;
use vstd::slice::slice_to_vec;
use vstd::string::StringSliceAdditionalSpecFns;
use vstd::utf8::valid_utf8;

verus! {

/// Any value that the decoders can produce.
///
/// A float is held as the bit pattern of an IEEE-754 binary64 number. A
/// string is a sequence of bytes, borrowed from the input where the decoder
/// could leave it there.
#[derive(Debug)]
pub enum Value<'a> {
    Nil,
    Bool(bool),
    Int(i64),
    Float(u64),
    String(Cow<'a, [u8]>),
    Table(Table<'a>),
}

/// A table. The named part is a list of entries in which a later entry
/// replaces an earlier one with the same key; the order of the entries has
/// no meaning beyond that.
#[derive(Debug)]
pub enum Table<'a> {
    Empty,
    Named(Vec<(Cow<'a, [u8]>, Value<'a>)>),
    Array(Vec<Value<'a>>),
    FloatArray(Vec<u64>),
    MixedTable { array: Vec<Value<'a>>, named: Vec<(Cow<'a, [u8]>, Value<'a>)> },
}

/// What a value is, apart from where its bytes are stored.
pub enum ValueView {
    Nil,
    Bool(bool),
    Int(i64),
    Float(u64),
    String(Seq<u8>),
    Table(TableView),
}

/// What a table is: its named part is a map from keys to values.
pub enum TableView {
    Empty,
    Named(Map<Seq<u8>, ValueView>),
    Array(Seq<ValueView>),
    FloatArray(Seq<u64>),
    MixedTable { array: Seq<ValueView>, named: Map<Seq<u8>, ValueView> },
}

/// The values of a list, each by its view.
pub open spec fn values_view<'a>(values: Seq<Value<'a>>) -> Seq<ValueView>
    decreases values,
{
    if values.len() == 0 {
        Seq::empty()
    } else {
        values_view(values.drop_last()).push(values.last().view())
    }
}

/// The entries of a list, each key and each value by its view.
pub open spec fn entries_view<'a>(entries: Seq<(Cow<'a, [u8]>, Value<'a>)>) -> Seq<
    (Seq<u8>, ValueView),
>
    decreases entries,
{
    if entries.len() == 0 {
        Seq::empty()
    } else {
        entries_view(entries.drop_last()).push((entries.last().0@, entries.last().1.view()))
    }
}

/// The map that a list of pairs stands for: the pairs are inserted in
/// order, so the last pair with a given key decides.
pub open spec fn pairs_map<V>(pairs: Seq<(Seq<u8>, V)>) -> Map<Seq<u8>, V>
    decreases pairs.len(),
{
    if pairs.len() == 0 {
        Map::empty()
    } else {
        pairs_map(pairs.drop_last()).insert(pairs.last().0, pairs.last().1)
    }
}

/// The map that a list of entries stands for.
pub open spec fn named_view<'a>(entries: Seq<(Cow<'a, [u8]>, Value<'a>)>) -> Map<
    Seq<u8>,
    ValueView,
> {
    pairs_map(entries_view(entries))
}

impl<'a> Value<'a> {
    /// The value apart from where its bytes are stored.
    pub open spec fn view(&self) -> ValueView
        decreases self,
    {
        match self {
            Value::Nil => ValueView::Nil,
            Value::Bool(b) => ValueView::Bool(*b),
            Value::Int(i) => ValueView::Int(*i),
            Value::Float(bits) => ValueView::Float(*bits),
            Value::String(s) => ValueView::String(s@),
            Value::Table(t) => ValueView::Table(t.view()),
        }
    }
}

impl<'a> Table<'a> {
    /// The table apart from where its bytes are stored, with its named
    /// part as a map.
    pub open spec fn view(&self) -> TableView
        decreases self,
    {
        match self {
            Table::Empty => TableView::Empty,
            Table::Named(entries) => TableView::Named(pairs_map(entries_view(entries@))),
            Table::Array(values) => TableView::Array(values_view(values@)),
            Table::FloatArray(bits) => TableView::FloatArray(bits@),
            Table::MixedTable { array, named } => TableView::MixedTable {
                array: values_view(array@),
                named: pairs_map(entries_view(named@)),
            },
        }
    }
}

/// The bytes `s` stand somewhere in `b`, one after the other.
pub open spec fn is_slice_of(s: Seq<u8>, b: Seq<u8>) -> bool {
    exists|i: int| 0 <= i && i + s.len() <= b.len() && s == #[trigger] b.subrange(i, i + s.len())
}

/// The byte string is not a copy: it is borrowed, and its bytes stand in `b`.
pub open spec fn borrowed_from<'a>(s: Cow<'a, [u8]>, b: Seq<u8>) -> bool {
    s is Borrowed && is_slice_of(s@, b)
}

impl<'a> Value<'a> {
    /// Every string in the value is borrowed, and its bytes stand in `b`.
    pub open spec fn borrows_from(&self, b: Seq<u8>) -> bool
        decreases self,
    {
        match self {
            Value::String(s) => borrowed_from(*s, b),
            Value::Table(t) => t.borrows_from(b),
            _ => true,
        }
    }
}

impl<'a> Table<'a> {
    /// Every key and every string in the table is borrowed, and its bytes
    /// stand in `b`.
    pub open spec fn borrows_from(&self, b: Seq<u8>) -> bool
        decreases self,
    {
        match self {
            Table::Empty => true,
            Table::FloatArray(_) => true,
            Table::Array(values) => forall|i: int|
                0 <= i < values@.len() ==> (#[trigger] values@[i]).borrows_from(b),
            Table::Named(entries) => forall|i: int|
                0 <= i < entries@.len() ==> borrowed_from((#[trigger] entries@[i]).0, b)
                    && entries@[i].1.borrows_from(b),
            Table::MixedTable { array, named } => (forall|i: int|
                0 <= i < array@.len() ==> (#[trigger] array@[i]).borrows_from(b)) && (forall|
                i: int,
            |
                0 <= i < named@.len() ==> borrowed_from((#[trigger] named@[i]).0, b)
                    && named@[i].1.borrows_from(b)),
        }
    }
}

/// Asks `core::str::from_utf8` for the text that the bytes encode: there is
/// one exactly when the bytes are valid UTF-8, and it is made of those bytes.
#[verifier::external_body]
pub(crate) fn utf8_text(bytes: &[u8]) -> (r: Option<&str>)
    ensures
        match r {
            Some(s) => valid_utf8(bytes@) && s.spec_bytes() == bytes@,
            None => !valid_utf8(bytes@),
        },
{
    core::str::from_utf8(bytes).ok()
}

/// A copy of a byte string: borrowed bytes stay borrowed, owned bytes are
/// copied.
pub fn copy_bytes<'a>(s: &Cow<'a, [u8]>) -> (r: Cow<'a, [u8]>)
    ensures
        r@ == s@,
        s is Borrowed ==> r == *s,
{
    match s {
        Cow::Borrowed(b) => Cow::Borrowed(*b),
        Cow::Owned(v) => Cow::Owned(slice_to_vec(v.as_slice())),
    }
}

/// The views of a list with one more value are the views of the list with
/// the view of that value.
pub proof fn lemma_values_view_push<'a>(values: Seq<Value<'a>>, v: Value<'a>)
    ensures
        values_view(values.push(v)) == values_view(values).push(v.view()),
{
    assert(values.push(v).drop_last() =~= values);
}

/// The views of a list are as many as its values, and each is the view of
/// the value at its place.
pub proof fn lemma_values_view_index<'a>(values: Seq<Value<'a>>)
    ensures
        values_view(values).len() == values.len(),
        forall|i: int| 0 <= i < values.len() ==> (#[trigger] values_view(values)[i]) == values[i].view(),
    decreases values.len(),
{
    if values.len() > 0 {
        lemma_values_view_index(values.drop_last());
    }
}

/// The views of a list with one more entry are the views of the list with
/// the view of that entry.
pub proof fn lemma_entries_view_push<'a>(
    entries: Seq<(Cow<'a, [u8]>, Value<'a>)>,
    key: Cow<'a, [u8]>,
    v: Value<'a>,
)
    ensures
        entries_view(entries.push((key, v))) == entries_view(entries).push((key@, v.view())),
{
    assert(entries.push((key, v)).drop_last() =~= entries);
}

/// The views of a list of entries are as many as its entries, and each is
/// the view of the entry at its place.
pub proof fn lemma_entries_view_index<'a>(entries: Seq<(Cow<'a, [u8]>, Value<'a>)>)
    ensures
        entries_view(entries).len() == entries.len(),
        forall|i: int|
            0 <= i < entries.len() ==> (#[trigger] entries_view(entries)[i]) == (
                entries[i].0@,
                entries[i].1.view(),
            ),
    decreases entries.len(),
{
    if entries.len() > 0 {
        lemma_entries_view_index(entries.drop_last());
    }
}

/// The value of the last pair with the given key, if there is one.
pub open spec fn pairs_get<V>(pairs: Seq<(Seq<u8>, V)>, key: Seq<u8>) -> Option<V>
    decreases pairs.len(),
{
    if pairs.len() == 0 {
        None
    } else if pairs.last().0 == key {
        Some(pairs.last().1)
    } else {
        pairs_get(pairs.drop_last(), key)
    }
}

/// The map of a list of pairs holds a key exactly when a pair has it, and
/// then gives the value of the last such pair.
pub proof fn lemma_pairs_map_get<V>(pairs: Seq<(Seq<u8>, V)>, key: Seq<u8>)
    ensures
        pairs_map(pairs).contains_key(key) <==> pairs_get(pairs, key) is Some,
        pairs_get(pairs, key) is Some ==> pairs_map(pairs)[key] == pairs_get(pairs, key)->0,
    decreases pairs.len(),
{
    if pairs.len() > 0 {
        lemma_pairs_map_get(pairs.drop_last(), key);
    }
}

/// No pair behind pair `i` has the key of pair `i`.
pub open spec fn is_last<V>(pairs: Seq<(Seq<u8>, V)>, i: int) -> bool {
    forall|j: int| i < j < pairs.len() ==> (#[trigger] pairs[j]).0 != pairs[i].0
}

/// The last pair with a key is the one that the map of the pairs holds.
pub proof fn lemma_pairs_get_last<V>(pairs: Seq<(Seq<u8>, V)>, i: int)
    requires
        0 <= i < pairs.len(),
        is_last(pairs, i),
    ensures
        pairs_get(pairs, pairs[i].0) == Some(pairs[i].1),
    decreases pairs.len(),
{
    if i < pairs.len() - 1 {
        let front = pairs.drop_last();
        assert(pairs[pairs.len() - 1].0 != pairs[i].0);
        assert forall|j: int| i < j < front.len() implies (#[trigger] front[j]).0
            != front[i].0 by {
            assert(pairs[j].0 != pairs[i].0);
        }
        lemma_pairs_get_last(front, i);
    }
}

/// A key that the map of the pairs holds has a last pair.
pub proof fn lemma_pairs_get_some<V>(pairs: Seq<(Seq<u8>, V)>, key: Seq<u8>) -> (i: int)
    requires
        pairs_get(pairs, key) is Some,
    ensures
        0 <= i < pairs.len(),
        pairs[i].0 == key,
        is_last(pairs, i),
        pairs_get(pairs, key) == Some(pairs[i].1),
    decreases pairs.len(),
{
    if pairs.last().0 == key {
        pairs.len() - 1
    } else {
        let front = pairs.drop_last();
        let i = lemma_pairs_get_some(front, key);
        assert forall|j: int| i < j < pairs.len() implies (#[trigger] pairs[j]).0
            != pairs[i].0 by {
            if j < front.len() {
                assert(front[j].0 != front[i].0);
            }
        }
        i
    }
}

/// A key that some pair has is in the map of the pairs.
pub proof fn lemma_pairs_get_exists<V>(pairs: Seq<(Seq<u8>, V)>, i: int)
    requires
        0 <= i < pairs.len(),
    ensures
        pairs_get(pairs, pairs[i].0) is Some,
    decreases pairs.len(),
{
    if pairs.last().0 != pairs[i].0 {
        lemma_pairs_get_exists(pairs.drop_last(), i);
    }
}

/// Takes the pairs that count from a list, each with its value sent through
/// `g`: their map is the map of the list with every value sent through `g`.
pub proof fn lemma_mapped_pairs<V, W>(
    pairs: Seq<(Seq<u8>, V)>,
    idx: Seq<usize>,
    out: Seq<(Seq<u8>, W)>,
    g: spec_fn(V) -> W,
)
    requires
        forall|n: int|
            0 <= n < idx.len() ==> (#[trigger] idx[n]) < pairs.len() && is_last(
                pairs,
                idx[n] as int,
            ),
        forall|i: int|
            0 <= i < pairs.len() && is_last(pairs, i) ==> exists|n: int|
                0 <= n < idx.len() && #[trigger] idx[n] == i,
        out.len() == idx.len(),
        forall|n: int|
            0 <= n < out.len() ==> (#[trigger] out[n]) == (
                pairs[idx[n] as int].0,
                g(pairs[idx[n] as int].1),
            ),
    ensures
        pairs_map(out) == pairs_map(pairs).map_values(g),
{
    let left = pairs_map(out);
    let right = pairs_map(pairs).map_values(g);
    assert forall|k: Seq<u8>| #[trigger]
        left.dom().contains(k) == right.dom().contains(k) && (left.dom().contains(k) ==> left[k]
            == right[k]) by {
        lemma_pairs_map_get(out, k);
        lemma_pairs_map_get(pairs, k);
        assert(right.dom().contains(k) == pairs_map(pairs).dom().contains(k));
        if left.contains_key(k) {
            let n = lemma_pairs_get_some(out, k);
            let i = idx[n] as int;
            assert(out[n] == (pairs[i].0, g(pairs[i].1)));
            lemma_pairs_get_last(pairs, i);
        }
        if pairs_map(pairs).contains_key(k) {
            let i = lemma_pairs_get_some(pairs, k);
            let n = choose|n: int| 0 <= n < idx.len() && #[trigger] idx[n] == i;
            assert(out[n] == (pairs[i].0, g(pairs[i].1)));
            lemma_pairs_get_exists(out, n);
        }
    }
    assert(left.dom() =~= right.dom());
    assert(left =~= right);
}

/// Whether two byte strings hold the same bytes.
pub fn bytes_eq(a: &[u8], b: &[u8]) -> (r: bool)
    ensures
        r == (a@ == b@),
{
    if a.len() != b.len() {
        return false;
    }
    let mut i: usize = 0;
    while i < a.len()
        invariant
            a.len() == b.len(),
            i <= a.len(),
            forall|k: int| 0 <= k < i ==> a@[k] == b@[k],
        decreases a.len() - i,
    {
        if a[i] != b[i] {
            return false;
        }
        i += 1;
    }
    assert(a@ =~= b@);
    true
}

/// The bytes of a byte string, wherever they are stored.
pub fn bytes_of<'b, 'a>(s: &'b Cow<'a, [u8]>) -> (r: &'b [u8])
    ensures
        r@ == s@,
{
    match s {
        Cow::Borrowed(b) => *b,
        Cow::Owned(v) => v.as_slice(),
    }
}

/// The value of the last entry with the given key, if there is one.
pub fn find_entry<'b, 'a>(entries: &'b Vec<(Cow<'a, [u8]>, Value<'a>)>, key: &[u8]) -> (r: Option<
    &'b Value<'a>,
>)
    ensures
        match r {
            Some(v) => named_view(entries@).contains_key(key@) && v.view() == named_view(
                entries@,
            )[key@],
            None => !named_view(entries@).contains_key(key@),
        },
{
    let mut i: usize = entries.len();
    let ghost pairs = entries_view(entries@);
    proof {
        lemma_pairs_map_get(pairs, key@);
        lemma_entries_view_index(entries@);
        assert(pairs.subrange(0, i as int) =~= pairs);
    }
    while i > 0
        invariant
            i <= entries.len(),
            pairs == entries_view(entries@),
            pairs.len() == entries.len(),
            pairs_get(pairs, key@) == pairs_get(pairs.subrange(0, i as int), key@),
        decreases i,
    {
        i -= 1;
        proof {
            lemma_entries_view_index(entries@);
            let front = pairs.subrange(0, i + 1);
            assert(front.last() == pairs[i as int]);
            assert(front.drop_last() =~= pairs.subrange(0, i as int));
        }
        if bytes_eq(bytes_of(&entries[i].0), key) {
            proof {
                lemma_pairs_map_get(pairs, key@);
            }
            return Some(&entries[i].1);
        }
    }
    None
}

/// The positions of the entries that count: for each key, that of the last
/// entry with it. They come in rising order.
pub fn last_indices<'a>(entries: &Vec<(Cow<'a, [u8]>, Value<'a>)>) -> (r: Vec<usize>)
    ensures
        forall|n: int|
            0 <= n < r@.len() ==> (#[trigger] r@[n]) < entries@.len() && is_last(
                entries_view(entries@),
                r@[n] as int,
            ),
        forall|n: int, m: int| 0 <= n < m < r@.len() ==> r@[n] < r@[m],
        forall|i: int|
            0 <= i < entries@.len() && is_last(entries_view(entries@), i) ==> exists|n: int|
                0 <= n < r@.len() && #[trigger] r@[n] == i,
{
    let mut out: Vec<usize> = Vec::new();
    let mut i: usize = 0;
    let ghost pairs = entries_view(entries@);
    proof {
        lemma_entries_view_index(entries@);
    }
    while i < entries.len()
        invariant
            i <= entries.len(),
            pairs == entries_view(entries@),
            pairs.len() == entries@.len(),
            forall|n: int|
                0 <= n < out@.len() ==> (#[trigger] out@[n]) < i && is_last(pairs, out@[n] as int),
            forall|n: int, m: int| 0 <= n < m < out@.len() ==> out@[n] < out@[m],
            forall|k: int|
                0 <= k < i && is_last(pairs, k) ==> exists|n: int|
                    0 <= n < out@.len() && #[trigger] out@[n] == k,
        decreases entries.len() - i,
    {
        let mut j: usize = i + 1;
        let mut shadowed = false;
        while j < entries.len() && !shadowed
            invariant
                i < j <= entries.len(),
                pairs == entries_view(entries@),
                pairs.len() == entries@.len(),
                !shadowed ==> forall|k: int| i < k < j ==> (#[trigger] pairs[k]).0 != pairs[i as int].0,
                shadowed ==> !is_last(pairs, i as int),
            decreases entries.len() - j + (if shadowed { 0int } else { 1int }),
        {
            proof {
                lemma_entries_view_index(entries@);
            }
            if bytes_eq(bytes_of(&entries[j].0), bytes_of(&entries[i].0)) {
                assert(pairs[j as int].0 == pairs[i as int].0);
                shadowed = true;
            } else {
                j += 1;
            }
        }
        if !shadowed {
            let ghost before = out@;
            out.push(i);
            assert forall|k: int| 0 <= k < i + 1 && is_last(pairs, k) implies exists|n: int|
                0 <= n < out@.len() && #[trigger] out@[n] == k by {
                if k < i {
                    let n = choose|n: int| 0 <= n < before.len() && #[trigger] before[n] == k;
                    assert(out@[n] == k);
                } else {
                    assert(out@[out@.len() - 1] == k);
                }
            }
        }
        i += 1;
    }
    out
}

/// A copy of a value that shares nothing owned with the value it is made
/// from.
pub fn copy_value<'a>(v: &Value<'a>) -> (r: Value<'a>)
    ensures
        r.view() == v.view(),
    decreases v,
{
    match v {
        Value::Nil => Value::Nil,
        Value::Bool(b) => Value::Bool(*b),
        Value::Int(i) => Value::Int(*i),
        Value::Float(bits) => Value::Float(*bits),
        Value::String(s) => Value::String(copy_bytes(s)),
        Value::Table(t) => Value::Table(copy_table(t)),
    }
}

/// A copy of a list of values.
pub fn copy_values<'a>(values: &Vec<Value<'a>>) -> (r: Vec<Value<'a>>)
    ensures
        values_view(r@) == values_view(values@),
    decreases values,
{
    let mut out: Vec<Value<'a>> = Vec::new();
    let mut i: usize = 0;
    while i < values.len()
        invariant
            i <= values.len(),
            values_view(out@) == values_view(values@.subrange(0, i as int)),
        decreases values.len() - i,
    {
        let item = copy_value(&values[i]);
        proof {
            lemma_values_view_push(out@, item);
            lemma_values_view_push(values@.subrange(0, i as int), values[i as int]);
            assert(values@.subrange(0, i as int).push(values[i as int]) =~= values@.subrange(
                0,
                i + 1,
            ));
        }
        out.push(item);
        i += 1;
    }
    assert(values@.subrange(0, i as int) =~= values@);
    out
}

/// A copy of a list of entries.
pub fn copy_entries<'a>(entries: &Vec<(Cow<'a, [u8]>, Value<'a>)>) -> (r: Vec<
    (Cow<'a, [u8]>, Value<'a>),
>)
    ensures
        entries_view(r@) == entries_view(entries@),
    decreases entries,
{
    let mut out: Vec<(Cow<'a, [u8]>, Value<'a>)> = Vec::new();
    let mut i: usize = 0;
    while i < entries.len()
        invariant
            i <= entries.len(),
            entries_view(out@) == entries_view(entries@.subrange(0, i as int)),
        decreases entries.len() - i,
    {
        let key = copy_bytes(&entries[i].0);
        let item = copy_value(&entries[i].1);
        proof {
            lemma_entries_view_push(out@, key, item);
            lemma_entries_view_push(
                entries@.subrange(0, i as int),
                entries[i as int].0,
                entries[i as int].1,
            );
            assert(entries@.subrange(0, i as int).push(entries[i as int]) =~= entries@.subrange(
                0,
                i + 1,
            ));
        }
        out.push((key, item));
        i += 1;
    }
    assert(entries@.subrange(0, i as int) =~= entries@);
    out
}

/// A copy of a table that shares nothing owned with the table it is made
/// from.
pub fn copy_table<'a>(t: &Table<'a>) -> (r: Table<'a>)
    ensures
        r.view() == t.view(),
    decreases t,
{
    match t {
        Table::Empty => Table::Empty,
        Table::Named(entries) => Table::Named(copy_entries(entries)),
        Table::Array(values) => Table::Array(copy_values(values)),
        Table::FloatArray(bits) => Table::FloatArray(slice_to_vec(bits.as_slice())),
        Table::MixedTable { array, named } => Table::MixedTable {
            array: copy_values(array),
            named: copy_entries(named),
        },
    }
}

/// The map of the entries holds the key of every entry that counts, with
/// the value of that entry.
pub proof fn lemma_last_entry<'a>(entries: Seq<(Cow<'a, [u8]>, Value<'a>)>, i: int)
    requires
        0 <= i < entries.len(),
        is_last(entries_view(entries), i),
    ensures
        named_view(entries).contains_key(entries[i].0@),
        named_view(entries)[entries[i].0@] == entries[i].1.view(),
{
    lemma_entries_view_index(entries);
    lemma_pairs_get_last(entries_view(entries), i);
    lemma_pairs_map_get(entries_view(entries), entries[i].0@);
}

/// Every key that the map of the entries holds is the key of an entry that
/// counts.
pub proof fn lemma_key_has_entry<'a>(entries: Seq<(Cow<'a, [u8]>, Value<'a>)>, key: Seq<u8>) -> (i:
    int)
    requires
        named_view(entries).contains_key(key),
    ensures
        0 <= i < entries.len(),
        is_last(entries_view(entries), i),
        entries[i].0@ == key,
        named_view(entries)[key] == entries[i].1.view(),
{
    lemma_entries_view_index(entries);
    lemma_pairs_map_get(entries_view(entries), key);
    lemma_pairs_get_some(entries_view(entries), key)
}

/// Whether two values are the same value, wherever their bytes are stored
/// and in whatever order the entries of their tables stand. Floats are the
/// same where their bits are.
pub fn value_eq(a: &Value, b: &Value) -> (r: bool)
    ensures
        r == (a.view() == b.view()),
    decreases a,
{
    match (a, b) {
        (Value::Nil, Value::Nil) => true,
        (Value::Bool(x), Value::Bool(y)) => *x == *y,
        (Value::Int(x), Value::Int(y)) => *x == *y,
        (Value::Float(x), Value::Float(y)) => *x == *y,
        (Value::String(x), Value::String(y)) => bytes_eq(bytes_of(x), bytes_of(y)),
        (Value::Table(x), Value::Table(y)) => table_eq(x, y),
        _ => false,
    }
}

/// Whether two lists hold the same values in the same order.
pub fn values_eq(a: &Vec<Value>, b: &Vec<Value>) -> (r: bool)
    ensures
        r == (values_view(a@) == values_view(b@)),
    decreases a,
{
    proof {
        lemma_values_view_index(a@);
        lemma_values_view_index(b@);
    }
    if a.len() != b.len() {
        return false;
    }
    let mut i: usize = 0;
    while i < a.len()
        invariant
            i <= a.len(),
            a.len() == b.len(),
            forall|k: int| 0 <= k < i ==> (#[trigger] a@[k]).view() == b@[k].view(),
        decreases a.len() - i,
    {
        if !value_eq(&a[i], &b[i]) {
            proof {
                lemma_values_view_index(a@);
                lemma_values_view_index(b@);
                assert(values_view(a@)[i as int] != values_view(b@)[i as int]);
            }
            return false;
        }
        i += 1;
    }
    proof {
        lemma_values_view_index(a@);
        lemma_values_view_index(b@);
        assert(values_view(a@) =~= values_view(b@));
    }
    true
}

/// Whether every entry of `a` that counts has its key in `b`.
pub fn keys_within(a: &Vec<(Cow<'_, [u8]>, Value<'_>)>, b: &Vec<(Cow<'_, [u8]>, Value<'_>)>) -> (r:
    bool)
    ensures
        r == (forall|k: Seq<u8>|
            named_view(a@).contains_key(k) ==> #[trigger] named_view(b@).contains_key(k)),
{
    let idx = last_indices(a);
    let mut n: usize = 0;
    while n < idx.len()
        invariant
            n <= idx.len(),
            forall|j: int|
                0 <= j < idx@.len() ==> (#[trigger] idx@[j]) < a@.len() && is_last(
                    entries_view(a@),
                    idx@[j] as int,
                ),
            forall|j: int| 0 <= j < n ==> named_view(b@).contains_key((#[trigger] a@[idx@[j] as int]).0@),
        decreases idx.len() - n,
    {
        let i = idx[n];
        match find_entry(b, bytes_of(&a[i].0)) {
            Some(_) => {},
            None => {
                proof {
                    lemma_last_entry(a@, i as int);
                }
                return false;
            },
        }
        n += 1;
    }
    proof {
        assert forall|k: Seq<u8>| named_view(a@).contains_key(k) implies #[trigger] named_view(
            b@,
        ).contains_key(k) by {
            let i = lemma_key_has_entry(a@, k);
            let j = choose|j: int| 0 <= j < idx@.len() && #[trigger] idx@[j] == i;
            assert(named_view(b@).contains_key(a@[idx@[j] as int].0@));
        }
    }
    true
}

/// Whether two lists of entries stand for the same map.
pub fn entries_eq(a: &Vec<(Cow<'_, [u8]>, Value<'_>)>, b: &Vec<(Cow<'_, [u8]>, Value<'_>)>) -> (r:
    bool)
    ensures
        r == (named_view(a@) == named_view(b@)),
    decreases a,
{
    if !keys_within(b, a) {
        proof {
            let k = choose|k: Seq<u8>|
                named_view(b@).contains_key(k) && !(#[trigger] named_view(a@).contains_key(k));
            assert(named_view(b@).contains_key(k) && !named_view(a@).contains_key(k));
        }
        return false;
    }
    let idx = last_indices(a);
    let mut n: usize = 0;
    while n < idx.len()
        invariant
            n <= idx.len(),
            forall|j: int|
                0 <= j < idx@.len() ==> (#[trigger] idx@[j]) < a@.len() && is_last(
                    entries_view(a@),
                    idx@[j] as int,
                ),
            forall|j: int|
                0 <= j < n ==> named_view(b@).contains_key((#[trigger] a@[idx@[j] as int]).0@)
                    && named_view(b@)[a@[idx@[j] as int].0@] == a@[idx@[j] as int].1.view(),
        decreases idx.len() - n,
    {
        let i = idx[n];
        proof {
            lemma_last_entry(a@, i as int);
        }
        match find_entry(b, bytes_of(&a[i].0)) {
            Some(other) => {
                if !value_eq(&a[i].1, other) {
                    return false;
                }
            },
            None => {
                return false;
            },
        }
        n += 1;
    }
    proof {
        let left = named_view(a@);
        let right = named_view(b@);
        assert forall|k: Seq<u8>| #[trigger]
            left.dom().contains(k) == right.dom().contains(k) && (left.dom().contains(k)
                ==> left[k] == right[k]) by {
            if left.contains_key(k) {
                let i = lemma_key_has_entry(a@, k);
                let j = choose|j: int| 0 <= j < idx@.len() && #[trigger] idx@[j] == i;
                assert(named_view(b@).contains_key(a@[idx@[j] as int].0@));
            }
            if right.contains_key(k) {
                assert(named_view(a@).contains_key(k));
            }
        }
        assert(left.dom() =~= right.dom());
        assert(left =~= right);
    }
    true
}

/// Whether two lists of bit patterns are the same.
pub fn bits_eq(a: &Vec<u64>, b: &Vec<u64>) -> (r: bool)
    ensures
        r == (a@ == b@),
{
    if a.len() != b.len() {
        return false;
    }
    let mut i: usize = 0;
    while i < a.len()
        invariant
            i <= a.len(),
            a.len() == b.len(),
            forall|k: int| 0 <= k < i ==> a@[k] == b@[k],
        decreases a.len() - i,
    {
        if a[i] != b[i] {
            return false;
        }
        i += 1;
    }
    assert(a@ =~= b@);
    true
}

/// Whether two tables are the same table: of the same shape, with the same
/// items in the same order and the same value under every key.
pub fn table_eq(a: &Table, b: &Table) -> (r: bool)
    ensures
        r == (a.view() == b.view()),
    decreases a,
{
    match (a, b) {
        (Table::Empty, Table::Empty) => true,
        (Table::Named(x), Table::Named(y)) => entries_eq(x, y),
        (Table::Array(x), Table::Array(y)) => values_eq(x, y),
        (Table::FloatArray(x), Table::FloatArray(y)) => bits_eq(x, y),
        (
            Table::MixedTable { array: xa, named: xn },
            Table::MixedTable { array: ya, named: yn },
        ) => values_eq(xa, ya) && entries_eq(xn, yn),
        _ => false,
    }
}

impl<'a> PartialEq for Value<'a> {
    fn eq(&self, other: &Self) -> (r: bool) {
        value_eq(self, other)
    }
}

impl<'a> vstd::std_specs::cmp::PartialEqSpecImpl for Value<'a> {
    open spec fn obeys_eq_spec() -> bool {
        true
    }

    open spec fn eq_spec(&self, other: &Self) -> bool {
        self.view() == other.view()
    }
}

impl<'a> PartialEq for Table<'a> {
    fn eq(&self, other: &Self) -> (r: bool) {
        table_eq(self, other)
    }
}

impl<'a> vstd::std_specs::cmp::PartialEqSpecImpl for Table<'a> {
    open spec fn obeys_eq_spec() -> bool {
        true
    }

    open spec fn eq_spec(&self, other: &Self) -> bool {
        self.view() == other.view()
    }
}

impl<'a> Clone for Value<'a> {
    fn clone(&self) -> (r: Self)
        ensures
            r.view() == self.view(),
    {
        copy_value(self)
    }
}

impl<'a> Clone for Table<'a> {
    fn clone(&self) -> (r: Self)
        ensures
            r.view() == self.view(),
    {
        copy_table(self)
    }
}

} // verus!
