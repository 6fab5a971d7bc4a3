//! The group-by engine: one pass over the records, deriving each record's key
//! from the group-by positions and folding its value field into that key's slot.
use vstd::prelude::*;
use crate::field::{Field, field_text, i64_value, parse_int};
use crate::table::{Aggregate, GroupKey, KeyView, table_keys};

verus! {

/// Why a terminal call gave up, with the ordinal of the offending record.
#[derive(Debug)]
pub enum AggregateError {
    /// A group-by or value position lies past the record's last field.
    FieldOutOfRange { record: usize, field: usize },
    /// The value field's display form is not a decimal integer in range.
    NotANumber { record: usize, field: usize, text: String },
    /// Adding the record's value would take its group's total out of range.
    Overflow { record: usize },
}

/// The mathematical form of an [`AggregateError`].
pub enum Failure {
    FieldOutOfRange { record: usize, field: usize },
    NotANumber { record: usize, field: usize, text: Seq<char> },
    Overflow { record: usize },
}

impl View for AggregateError {
    type V = Failure;

    open spec fn view(&self) -> Failure {
        match self {
            AggregateError::FieldOutOfRange { record, field } => Failure::FieldOutOfRange {
                record: *record,
                field: *field,
            },
            AggregateError::NotANumber { record, field, text } => Failure::NotANumber {
                record: *record,
                field: *field,
                text: text@,
            },
            AggregateError::Overflow { record } => Failure::Overflow { record: *record },
        }
    }
}

/// The first of `ps` that does not address a field of a record of `len` fields.
pub open spec fn first_missing(len: nat, ps: Seq<usize>) -> Option<usize>
    decreases ps.len(),
{
    if ps.len() == 0 {
        None
    } else if ps[0] >= len {
        Some(ps[0])
    } else {
        first_missing(len, ps.skip(1))
    }
}

/// The group key of a record: the display forms of the fields at `cols`, in order.
pub open spec fn record_key(row: Seq<Field>, cols: Seq<usize>) -> KeyView {
    cols.map_values(|c: usize| field_text(row[c as int]))
}

/// What record number `idx` contributes: its key and parsed value, or why it cannot.
pub open spec fn record_entry(row: Seq<Field>, idx: usize, cols: Seq<usize>, vcol: usize) -> Result<
    (KeyView, i64),
    Failure,
> {
    match first_missing(row.len(), cols.push(vcol)) {
        Some(p) => Err(Failure::FieldOutOfRange { record: idx, field: p }),
        None => match i64_value(field_text(row[vcol as int])) {
            None => Err(
                Failure::NotANumber { record: idx, field: vcol, text: field_text(row[vcol as int]) },
            ),
            Some(v) => Ok((record_key(row, cols), v)),
        },
    }
}

/// The entries of all records in input order, or the failure of the first bad one.
pub open spec fn entries(rows: Seq<Seq<Field>>, cols: Seq<usize>, vcol: usize) -> Result<
    Seq<(KeyView, i64)>,
    Failure,
>
    decreases rows.len(),
{
    if rows.len() == 0 {
        Ok(Seq::empty())
    } else {
        match entries(rows.drop_last(), cols, vcol) {
            Err(f) => Err(f),
            Ok(es) => match record_entry(rows.last(), (rows.len() - 1) as usize, cols, vcol) {
                Err(f) => Err(f),
                Ok(e) => Ok(es.push(e)),
            },
        }
    }
}

/// Adds one entry, from record number `idx`, to a table of running totals.
pub open spec fn sum_into(t: Seq<(KeyView, i64)>, e: (KeyView, i64), idx: usize) -> Result<
    Seq<(KeyView, i64)>,
    Failure,
> {
    let ks = table_keys(t);
    if ks.contains(e.0) {
        let j = ks.index_of(e.0);
        let total = t[j].1 + e.1;
        if i64::MIN <= total <= i64::MAX {
            Ok(t.update(j, (e.0, total as i64)))
        } else {
            Err(Failure::Overflow { record: idx })
        }
    } else {
        Ok(t.push(e))
    }
}

/// The table that `sum` builds from `rows`, or the failure that stops it.
pub open spec fn sum_outcome(rows: Seq<Seq<Field>>, cols: Seq<usize>, vcol: usize) -> Result<
    Seq<(KeyView, i64)>,
    Failure,
>
    decreases rows.len(),
{
    if rows.len() == 0 {
        Ok(Seq::empty())
    } else {
        match sum_outcome(rows.drop_last(), cols, vcol) {
            Err(f) => Err(f),
            Ok(t) => match record_entry(rows.last(), (rows.len() - 1) as usize, cols, vcol) {
                Err(f) => Err(f),
                Ok(e) => sum_into(t, e, (rows.len() - 1) as usize),
            },
        }
    }
}

/// Appends one entry to a table of per-key value sequences.
pub open spec fn collect_into(t: Seq<(KeyView, Seq<i64>)>, e: (KeyView, i64)) -> Seq<
    (KeyView, Seq<i64>),
> {
    let ks = table_keys(t);
    if ks.contains(e.0) {
        let j = ks.index_of(e.0);
        t.update(j, (e.0, t[j].1.push(e.1)))
    } else {
        t.push((e.0, seq![e.1]))
    }
}

/// The table of per-key value sequences built from entries in order.
pub open spec fn collect_table(es: Seq<(KeyView, i64)>) -> Seq<(KeyView, Seq<i64>)>
    decreases es.len(),
{
    if es.len() == 0 {
        Seq::empty()
    } else {
        collect_into(collect_table(es.drop_last()), es.last())
    }
}

/// The table that `group_array` builds from `rows`, or the failure that stops it.
pub open spec fn collect_outcome(rows: Seq<Seq<Field>>, cols: Seq<usize>, vcol: usize) -> Result<
    Seq<(KeyView, Seq<i64>)>,
    Failure,
> {
    match entries(rows, cols, vcol) {
        Ok(es) => Ok(collect_table(es)),
        Err(f) => Err(f),
    }
}

/// The mathematical form of a sequence of records.
pub open spec fn rows_view(rows: Seq<Vec<Field>>) -> Seq<Seq<Field>> {
    rows.map_values(|r: Vec<Field>| r@)
}

/// Derives a record's group key: each field at `cols`, rendered, in order.
pub fn group_key(row: &Vec<Field>, cols: &Vec<usize>) -> (r: GroupKey)
    requires
        forall|i: int| 0 <= i < cols@.len() ==> (#[trigger] cols@[i]) < row@.len(),
    ensures
        r.deep_view() == record_key(row@, cols@),
{
    let mut key: GroupKey = Vec::new();
    let mut i: usize = 0;
    while i < cols.len()
        invariant
            i <= cols@.len(),
            forall|j: int| 0 <= j < cols@.len() ==> (#[trigger] cols@[j]) < row@.len(),
            key.deep_view() == record_key(row@, cols@.take(i as int)),
        decreases cols@.len() - i,
    {
        let c = cols[i];
        let ghost prev = key.deep_view();
        let text = row[c].render();
        key.push(text);
        proof {
            assert(key.deep_view() =~= prev.push(field_text(row@[c as int])));
            assert(cols@.take(i + 1) =~= cols@.take(i as int).push(c));
            assert(record_key(row@, cols@.take(i + 1)) =~= prev.push(field_text(row@[c as int])));
        }
        i = i + 1;
    }
    proof {
        assert(cols@.take(i as int) =~= cols@);
    }
    key
}

/// The first of `ps` that lies past the last field of `row`, if any.
fn find_missing(row: &Vec<Field>, ps: &Vec<usize>) -> (r: Option<usize>)
    ensures
        r == first_missing(row@.len(), ps@),
{
    let mut i: usize = 0;
    proof {
        assert(ps@.skip(0) =~= ps@);
    }
    while i < ps.len()
        invariant
            i <= ps@.len(),
            first_missing(row@.len(), ps@) == first_missing(row@.len(), ps@.skip(i as int)),
        decreases ps@.len() - i,
    {
        proof {
            assert(ps@.skip(i as int)[0] == ps@[i as int]);
            assert(ps@.skip(i as int).skip(1) =~= ps@.skip(i + 1));
        }
        if ps[i] >= row.len() {
            return Some(ps[i]);
        }
        i = i + 1;
    }
    None
}

/// Reads record number `idx`: its group key and its parsed value.
fn read_record(row: &Vec<Field>, idx: usize, cols: &Vec<usize>, vcol: usize) -> (r: Result<
    (GroupKey, i64),
    AggregateError,
>)
    ensures
        match r {
            Ok((k, v)) => record_entry(row@, idx, cols@, vcol) == Ok::<(KeyView, i64), Failure>(
                (k.deep_view(), v),
            ),
            Err(e) => record_entry(row@, idx, cols@, vcol) == Err::<(KeyView, i64), Failure>(e@),
        },
{
    let mut ps = cols.clone();
    proof {
        assert(ps@ =~= cols@);
    }
    ps.push(vcol);
    match find_missing(row, &ps) {
        Some(p) => {
            return Err(AggregateError::FieldOutOfRange { record: idx, field: p });
        },
        None => {},
    }
    proof {
        lemma_none_missing(row@.len(), ps@);
        assert(ps@[ps@.len() - 1] == vcol);
        assert forall|i: int| 0 <= i < cols@.len() implies (#[trigger] cols@[i]) < row@.len() by {
            assert(ps@[i] == cols@[i]);
        }
    }
    let text = row[vcol].render();
    match parse_int(text.as_str()) {
        Some(v) => {
            let key = group_key(row, cols);
            Ok((key, v))
        },
        None => Err(AggregateError::NotANumber { record: idx, field: vcol, text }),
    }
}

proof fn lemma_none_missing(len: nat, ps: Seq<usize>)
    requires
        first_missing(len, ps) is None,
    ensures
        forall|i: int| 0 <= i < ps.len() ==> (#[trigger] ps[i]) < len,
    decreases ps.len(),
{
    if ps.len() > 0 {
        lemma_none_missing(len, ps.skip(1));
        assert forall|i: int| 0 <= i < ps.len() implies (#[trigger] ps[i]) < len by {
            if i > 0 {
                assert(ps.skip(1)[i - 1] == ps[i]);
            }
        }
    }
}

/// Once a prefix of the records fails, `sum` fails the same way on all of them.
proof fn lemma_sum_stops(rows: Seq<Seq<Field>>, cols: Seq<usize>, vcol: usize, n: int)
    requires
        0 <= n <= rows.len(),
        sum_outcome(rows.take(n), cols, vcol) is Err,
    ensures
        sum_outcome(rows, cols, vcol) == sum_outcome(rows.take(n), cols, vcol),
    decreases rows.len(),
{
    if n == rows.len() {
        assert(rows.take(n) =~= rows);
    } else {
        assert(rows.drop_last().take(n) =~= rows.take(n));
        lemma_sum_stops(rows.drop_last(), cols, vcol, n);
    }
}

/// Once a prefix of the records fails, reading entries fails the same way on all of them.
proof fn lemma_entries_stop(rows: Seq<Seq<Field>>, cols: Seq<usize>, vcol: usize, n: int)
    requires
        0 <= n <= rows.len(),
        entries(rows.take(n), cols, vcol) is Err,
    ensures
        entries(rows, cols, vcol) == entries(rows.take(n), cols, vcol),
    decreases rows.len(),
{
    if n == rows.len() {
        assert(rows.take(n) =~= rows);
    } else {
        assert(rows.drop_last().take(n) =~= rows.take(n));
        lemma_entries_stop(rows.drop_last(), cols, vcol, n);
    }
}

/// A lazy group-by over records: nothing is read until a terminal call.
pub struct GroupBy {
    rows: Vec<Vec<Field>>,
    group_by_cols: Vec<usize>,
    value_col: usize,
}

impl GroupBy {
    /// The records, in input order.
    pub closed spec fn records(&self) -> Seq<Seq<Field>> {
        rows_view(self.rows@)
    }

    /// The group-by positions, in declared order.
    pub closed spec fn key_positions(&self) -> Seq<usize> {
        self.group_by_cols@
    }

    /// The position of the value field.
    pub closed spec fn value_position(&self) -> usize {
        self.value_col
    }

    /// Holds the records and the positions; no position is checked here.
    pub fn new(rows: Vec<Vec<Field>>, group_by_cols: Vec<usize>, value_col: usize) -> (r: Self)
        ensures
            r.records() == rows_view(rows@),
            r.key_positions() == group_by_cols@,
            r.value_position() == value_col,
    {
        GroupBy { rows, group_by_cols, value_col }
    }

    /// Sums the value field per group, in one pass over the records.
    pub fn sum(self) -> (r: Result<Aggregate<i64>, AggregateError>)
        ensures
            match r {
                Ok(t) => t.wf() && sum_outcome(self.records(), self.key_positions(), self.value_position()) == Ok::<
                    Seq<(KeyView, i64)>,
                    Failure,
                >(t@),
                Err(e) => sum_outcome(self.records(), self.key_positions(), self.value_position())
                    == Err::<Seq<(KeyView, i64)>, Failure>(e@),
            },
    {
        let ghost rows = self.records();
        let ghost cols = self.key_positions();
        let mut t: Aggregate<i64> = Aggregate::empty();
        let mut i: usize = 0;
        while i < self.rows.len()
            invariant
                i <= self.rows@.len(),
                rows == rows_view(self.rows@),
                cols == self.group_by_cols@,
                t.wf(),
                sum_outcome(rows.take(i as int), cols, self.value_col) == Ok::<
                    Seq<(KeyView, i64)>,
                    Failure,
                >(t@),
            decreases self.rows@.len() - i,
        {
            proof {
                assert(rows.take(i + 1).drop_last() =~= rows.take(i as int));
                assert(rows.take(i + 1).last() == self.rows@[i as int]@);
            }
            let (key, v) = match read_record(&self.rows[i], i, &self.group_by_cols, self.value_col) {
                Ok(e) => e,
                Err(e) => {
                    proof {
                        lemma_sum_stops(rows, cols, self.value_col, i + 1);
                    }
                    return Err(e);
                },
            };
            let ghost kv = key.deep_view();
            let ghost t0 = t@;
            let j = t.slot_for(key, 0);
            let cur = t.replace_value(j, 0);
            match cur.checked_add(v) {
                Some(total) => {
                    t.replace_value(j, total);
                    proof {
                        if table_keys(t0).contains(kv) {
                            assert(t@ =~= t0.update(j as int, (kv, total)));
                        } else {
                            assert(t@ =~= t0.push((kv, v)));
                        }
                    }
                },
                None => {
                    proof {
                        lemma_sum_stops(rows, cols, self.value_col, i + 1);
                    }
                    return Err(AggregateError::Overflow { record: i });
                },
            }
            i = i + 1;
        }
        proof {
            assert(rows.take(i as int) =~= rows);
        }
        Ok(t)
    }

    /// Collects the parsed value field per group, in arrival order, in one pass.
    pub fn group_array(self) -> (r: Result<Aggregate<Vec<i64>>, AggregateError>)
        ensures
            match r {
                Ok(t) => t.wf() && collect_outcome(self.records(), self.key_positions(), self.value_position()) == Ok::<
                    Seq<(KeyView, Seq<i64>)>,
                    Failure,
                >(t@),
                Err(e) => collect_outcome(self.records(), self.key_positions(), self.value_position())
                    == Err::<Seq<(KeyView, Seq<i64>)>, Failure>(e@),
            },
    {
        let ghost rows = self.records();
        let ghost cols = self.key_positions();
        let ghost mut es: Seq<(KeyView, i64)> = Seq::empty();
        let mut t: Aggregate<Vec<i64>> = Aggregate::empty();
        let mut i: usize = 0;
        while i < self.rows.len()
            invariant
                i <= self.rows@.len(),
                rows == rows_view(self.rows@),
                cols == self.group_by_cols@,
                t.wf(),
                entries(rows.take(i as int), cols, self.value_col) == Ok::<
                    Seq<(KeyView, i64)>,
                    Failure,
                >(es),
                t@ == collect_table(es),
            decreases self.rows@.len() - i,
        {
            proof {
                assert(rows.take(i + 1).drop_last() =~= rows.take(i as int));
                assert(rows.take(i + 1).last() == self.rows@[i as int]@);
            }
            let (key, v) = match read_record(&self.rows[i], i, &self.group_by_cols, self.value_col) {
                Ok(e) => e,
                Err(e) => {
                    proof {
                        lemma_entries_stop(rows, cols, self.value_col, i + 1);
                    }
                    return Err(e);
                },
            };
            let ghost kv = key.deep_view();
            let ghost t0 = t@;
            let j = t.slot_for(key, Vec::new());
            let mut group = t.replace_value(j, Vec::new());
            group.push(v);
            t.replace_value(j, group);
            proof {
                if table_keys(t0).contains(kv) {
                    assert(t@ =~= collect_into(t0, (kv, v)));
                } else {
                    assert(t@ =~= collect_into(t0, (kv, v)));
                }
                assert(es.push((kv, v)).drop_last() =~= es);
                es = es.push((kv, v));
            }
            i = i + 1;
        }
        proof {
            assert(rows.take(i as int) =~= rows);
        }
        Ok(t)
    }
}

} // verus!
