//! What holds of every table that `sum` and `group_array` return, stated over
//! the records they were given.
use vstd::prelude::*;
use crate::field::{Field, field_text, i64_value, int_text, lemma_int_text_round_trip};
use crate::group_by::{
    collect_into,
    collect_outcome,
    collect_table,
    entries,
    record_entry,
    record_key,
    sum_outcome,
};
use crate::table::{KeyView, table_keys};

verus! {

/// The group key of each record, in input order.
pub open spec fn input_keys(rows: Seq<Seq<Field>>, cols: Seq<usize>) -> Seq<KeyView> {
    rows.map_values(|r: Seq<Field>| record_key(r, cols))
}

/// The keys of a sequence of entries, in order.
pub open spec fn entry_keys(es: Seq<(KeyView, i64)>) -> Seq<KeyView> {
    es.map_values(|e: (KeyView, i64)| e.0)
}

/// Each distinct element of `s` once, in the order of its first appearance.
pub open spec fn first_seen(s: Seq<KeyView>) -> Seq<KeyView>
    decreases s.len(),
{
    if s.len() == 0 {
        Seq::empty()
    } else {
        let p = first_seen(s.drop_last());
        if p.contains(s.last()) {
            p
        } else {
            p.push(s.last())
        }
    }
}

/// The values of the entries with key `k`, in arrival order.
pub open spec fn group_values(es: Seq<(KeyView, i64)>, k: KeyView) -> Seq<i64>
    decreases es.len(),
{
    if es.len() == 0 {
        Seq::empty()
    } else {
        let p = group_values(es.drop_last(), k);
        if es.last().0 == k {
            p.push(es.last().1)
        } else {
            p
        }
    }
}

/// The sum of a sequence of integers.
pub open spec fn seq_sum(s: Seq<i64>) -> int
    decreases s.len(),
{
    if s.len() == 0 {
        0
    } else {
        seq_sum(s.drop_last()) + s.last()
    }
}

/// The positions `0, 1, ..., n - 1`.
pub open spec fn all_positions(n: nat) -> Seq<usize> {
    Seq::new(n, |i: int| i as usize)
}

/// Each record with every field rendered.
pub open spec fn rendered_rows(rows: Seq<Seq<Field>>) -> Seq<Seq<Seq<char>>> {
    rows.map_values(|r: Seq<Field>| r.map_values(|f: Field| field_text(f)))
}

proof fn lemma_push_contains(s: Seq<KeyView>, x: KeyView)
    ensures
        forall|k: KeyView| s.push(x).contains(k) <==> (s.contains(k) || k == x),
{
    assert forall|k: KeyView| s.push(x).contains(k) <==> (s.contains(k) || k == x) by {
        if s.contains(k) {
            let i = choose|i: int| 0 <= i < s.len() && s[i] == k;
            assert(s.push(x)[i] == k);
        }
        if k == x {
            assert(s.push(x)[s.len() as int] == k);
        }
        if s.push(x).contains(k) && k != x {
            let i = choose|i: int| 0 <= i < s.push(x).len() && s.push(x)[i] == k;
            assert(s[i] == k);
        }
    }
}

proof fn lemma_first_seen(s: Seq<KeyView>)
    ensures
        first_seen(s).no_duplicates(),
        forall|k: KeyView| first_seen(s).contains(k) <==> s.contains(k),
    decreases s.len(),
{
    if s.len() > 0 {
        let q = s.drop_last();
        let x = s.last();
        lemma_first_seen(q);
        assert(q.push(x) =~= s);
        lemma_push_contains(q, x);
        lemma_push_contains(first_seen(q), x);
        let p = first_seen(q);
        assert(first_seen(s) == if p.contains(x) {
            p
        } else {
            p.push(x)
        });
        assert forall|k: KeyView| first_seen(s).contains(k) <==> s.contains(k) by {
            assert(s.contains(k) <==> (q.contains(k) || k == x));
            assert(p.contains(k) <==> q.contains(k));
        }
    }
}

proof fn lemma_group_values_absent(es: Seq<(KeyView, i64)>, k: KeyView)
    requires
        !entry_keys(es).contains(k),
    ensures
        group_values(es, k) == Seq::<i64>::empty(),
    decreases es.len(),
{
    if es.len() > 0 {
        assert(entry_keys(es.drop_last()) =~= entry_keys(es).drop_last());
        assert(entry_keys(es)[es.len() - 1] == es.last().0);
        if entry_keys(es.drop_last()).contains(k) {
            let i = choose|i: int|
                0 <= i < entry_keys(es.drop_last()).len() && entry_keys(es.drop_last())[i] == k;
            assert(entry_keys(es)[i] == k);
        }
        lemma_group_values_absent(es.drop_last(), k);
    }
}

proof fn lemma_entries_keys(rows: Seq<Seq<Field>>, cols: Seq<usize>, vcol: usize)
    requires
        entries(rows, cols, vcol) is Ok,
    ensures
        entry_keys(entries(rows, cols, vcol)->Ok_0) == input_keys(rows, cols),
    decreases rows.len(),
{
    if rows.len() > 0 {
        let q = rows.drop_last();
        let row = rows.last();
        lemma_entries_keys(q, cols, vcol);
        let es0 = entries(q, cols, vcol)->Ok_0;
        let e = record_entry(row, (rows.len() - 1) as usize, cols, vcol)->Ok_0;
        let es = entries(rows, cols, vcol)->Ok_0;
        assert(es == es0.push(e));
        assert(e.0 == record_key(row, cols));
        assert(entry_keys(es) =~= entry_keys(es0).push(e.0));
        assert(input_keys(rows, cols) =~= input_keys(q, cols).push(record_key(row, cols)));
    }
}

/// What a table of per-group values built from entries looks like, given
/// how it reacts to one more entry: keys in first-seen order, no key twice.
proof fn lemma_table_step<W>(t: Seq<(KeyView, W)>, t2: Seq<(KeyView, W)>, es: Seq<(KeyView, i64)>, e: (
    KeyView,
    i64,
))
    requires
        table_keys(t) == first_seen(entry_keys(es)),
        table_keys(t).contains(e.0) ==> t2.len() == t.len() && t2[table_keys(t).index_of(e.0)].0
            == e.0 && forall|i: int|
            0 <= i < t.len() && i != table_keys(t).index_of(e.0) ==> t2[i] == t[i],
        !table_keys(t).contains(e.0) ==> t2 == t.push((e.0, t2.last().1)),
    ensures
        table_keys(t2) == first_seen(entry_keys(es.push(e))),
        entry_keys(es.push(e)).drop_last() == entry_keys(es),
        entry_keys(es.push(e)).last() == e.0,
{
    assert(entry_keys(es.push(e)) =~= entry_keys(es).push(e.0));
    assert(entry_keys(es.push(e)).drop_last() =~= entry_keys(es));
    if table_keys(t).contains(e.0) {
        let j = table_keys(t).index_of(e.0);
        assert(table_keys(t)[j] == e.0);
        assert(table_keys(t2) =~= table_keys(t));
    } else {
        assert(table_keys(t2) =~= table_keys(t).push(e.0));
    }
}

proof fn lemma_group_values_step(es: Seq<(KeyView, i64)>, e: (KeyView, i64), k: KeyView)
    ensures
        group_values(es.push(e), k) == if e.0 == k {
            group_values(es, k).push(e.1)
        } else {
            group_values(es, k)
        },
{
    assert(es.push(e).drop_last() =~= es);
}

proof fn lemma_sum_shape(rows: Seq<Seq<Field>>, cols: Seq<usize>, vcol: usize)
    requires
        sum_outcome(rows, cols, vcol) is Ok,
    ensures
        entries(rows, cols, vcol) is Ok,
        ({
            let t = sum_outcome(rows, cols, vcol)->Ok_0;
            let es = entries(rows, cols, vcol)->Ok_0;
            &&& table_keys(t) == first_seen(entry_keys(es))
            &&& forall|i: int| 0 <= i < t.len() ==> t[i].1 == seq_sum(#[trigger] group_values(es, t[i].0))
        }),
    decreases rows.len(),
{
    if rows.len() > 0 {
        let q = rows.drop_last();
        lemma_sum_shape(q, cols, vcol);
        let t0 = sum_outcome(q, cols, vcol)->Ok_0;
        let es0 = entries(q, cols, vcol)->Ok_0;
        let e = record_entry(rows.last(), (rows.len() - 1) as usize, cols, vcol)->Ok_0;
        let t = sum_outcome(rows, cols, vcol)->Ok_0;
        let es = es0.push(e);
        assert(entries(rows, cols, vcol) == Ok::<Seq<(KeyView, i64)>, crate::group_by::Failure>(es));
        lemma_first_seen(entry_keys(es0));
        let ks = table_keys(t0);
        if ks.contains(e.0) {
            let j = ks.index_of(e.0);
            assert(ks[j] == e.0);
            assert(t == t0.update(j, (e.0, (t0[j].1 + e.1) as i64)));
        } else {
            assert(t == t0.push(e));
        }
        lemma_table_step(t0, t, es0, e);
        assert forall|i: int| 0 <= i < t.len() implies t[i].1 == seq_sum(
            #[trigger] group_values(es, t[i].0),
        ) by {
            lemma_group_values_step(es0, e, t[i].0);
            if ks.contains(e.0) {
                let j = ks.index_of(e.0);
                assert(ks[i] == t0[i].0);
                assert(t0[i].1 == seq_sum(group_values(es0, t0[i].0)));
                if i != j {
                    assert(ks[i] != ks[j]);
                    assert(t[i] == t0[i]);
                } else {
                    assert(i64::MIN <= t0[j].1 + e.1 <= i64::MAX);
                    let g = group_values(es0, e.0);
                    assert(g.push(e.1).drop_last() =~= g);
                    assert(seq_sum(g.push(e.1)) == seq_sum(g) + e.1);
                    assert(t[i] == (e.0, (t0[j].1 + e.1) as i64));
                    assert(t[i].1 == t0[j].1 + e.1);
                }
            } else if i < t0.len() {
                assert(t0[i].1 == seq_sum(group_values(es0, t0[i].0)));
                assert(ks[i] == t0[i].0);
                assert(t[i] == t0[i]);
            } else {
                assert(!entry_keys(es0).contains(e.0));
                lemma_group_values_absent(es0, e.0);
                let g = group_values(es0, e.0);
                assert(g.push(e.1).drop_last() =~= g);
                assert(seq_sum(g.push(e.1)) == seq_sum(g) + e.1);
                assert(seq_sum(g) == 0);
                assert(t[i] == e);
            }
        }
    }
}

proof fn lemma_collect_shape(es: Seq<(KeyView, i64)>)
    ensures
        table_keys(collect_table(es)) == first_seen(entry_keys(es)),
        forall|i: int|
            0 <= i < collect_table(es).len() ==> collect_table(es)[i].1 == #[trigger] group_values(
                es,
                collect_table(es)[i].0,
            ),
    decreases es.len(),
{
    if es.len() > 0 {
        let es0 = es.drop_last();
        let e = es.last();
        assert(es0.push(e) =~= es);
        lemma_collect_shape(es0);
        let t0 = collect_table(es0);
        let t = collect_table(es);
        assert(t == collect_into(t0, e));
        lemma_first_seen(entry_keys(es0));
        let ks = table_keys(t0);
        if ks.contains(e.0) {
            let j = ks.index_of(e.0);
            assert(ks[j] == e.0);
        }
        lemma_table_step(t0, t, es0, e);
        assert forall|i: int| 0 <= i < t.len() implies t[i].1 == #[trigger] group_values(
            es,
            t[i].0,
        ) by {
            lemma_group_values_step(es0, e, t[i].0);
            if ks.contains(e.0) {
                let j = ks.index_of(e.0);
                if i != j {
                    assert(ks[i] != ks[j]);
                }
            } else if i < t0.len() {
                assert(ks[i] == t0[i].0);
            } else {
                lemma_group_values_absent(es0, e.0);
                assert(Seq::<i64>::empty().push(e.1) =~= seq![e.1]);
            }
        }
    }
}

/// A table's keys are the distinct group keys of the input, each once, in the
/// order of its first appearance; for both `sum` and `group_array`.
pub proof fn law_keys_in_first_seen_order(rows: Seq<Seq<Field>>, cols: Seq<usize>, vcol: usize)
    ensures
        sum_outcome(rows, cols, vcol) is Ok ==> table_keys(sum_outcome(rows, cols, vcol)->Ok_0)
            == first_seen(input_keys(rows, cols)),
        collect_outcome(rows, cols, vcol) is Ok ==> table_keys(
            collect_outcome(rows, cols, vcol)->Ok_0,
        ) == first_seen(input_keys(rows, cols)),
{
    if sum_outcome(rows, cols, vcol) is Ok {
        lemma_sum_shape(rows, cols, vcol);
        lemma_entries_keys(rows, cols, vcol);
    }
    if collect_outcome(rows, cols, vcol) is Ok {
        lemma_collect_shape(entries(rows, cols, vcol)->Ok_0);
        lemma_entries_keys(rows, cols, vcol);
    }
}

/// The number of groups in a table is the number of distinct group keys in the input.
pub proof fn law_distinct_key_count(rows: Seq<Seq<Field>>, cols: Seq<usize>, vcol: usize)
    ensures
        sum_outcome(rows, cols, vcol) is Ok ==> sum_outcome(rows, cols, vcol)->Ok_0.len()
            == input_keys(rows, cols).to_set().len(),
        collect_outcome(rows, cols, vcol) is Ok ==> collect_outcome(rows, cols, vcol)->Ok_0.len()
            == input_keys(rows, cols).to_set().len(),
{
    let ks = input_keys(rows, cols);
    law_keys_in_first_seen_order(rows, cols, vcol);
    lemma_first_seen(ks);
    first_seen(ks).unique_seq_to_set();
    assert(first_seen(ks).to_set() =~= ks.to_set());
    if sum_outcome(rows, cols, vcol) is Ok {
        let t = sum_outcome(rows, cols, vcol)->Ok_0;
        assert(table_keys(t).len() == t.len());
    }
    if collect_outcome(rows, cols, vcol) is Ok {
        let t = collect_outcome(rows, cols, vcol)->Ok_0;
        assert(table_keys(t).len() == t.len());
    }
}

/// Each group's total from `sum` is the sum of the parsed values of that
/// group's records.
pub proof fn law_sum_per_group(rows: Seq<Seq<Field>>, cols: Seq<usize>, vcol: usize)
    requires
        sum_outcome(rows, cols, vcol) is Ok,
    ensures
        entries(rows, cols, vcol) is Ok,
        forall|i: int|
            0 <= i < sum_outcome(rows, cols, vcol)->Ok_0.len() ==> (
            #[trigger] sum_outcome(rows, cols, vcol)->Ok_0[i]).1 == seq_sum(
                group_values(entries(rows, cols, vcol)->Ok_0, sum_outcome(rows, cols, vcol)->Ok_0[i].0),
            ),
{
    lemma_sum_shape(rows, cols, vcol);
}

proof fn lemma_seq_sum_remove(s: Seq<i64>, j: int)
    requires
        0 <= j < s.len(),
    ensures
        seq_sum(s) == seq_sum(s.remove(j)) + s[j],
    decreases s.len(),
{
    if j < s.len() - 1 {
        let q = s.drop_last();
        lemma_seq_sum_remove(q, j);
        assert(s.remove(j).drop_last() =~= q.remove(j));
        assert(s.remove(j).last() == s.last());
    } else {
        assert(s.remove(j) =~= s.drop_last());
    }
}

/// A sum does not depend on the order of its terms: two sequences holding the
/// same values, each as often, have the same sum.
pub proof fn law_sum_order_free(a: Seq<i64>, b: Seq<i64>)
    requires
        a.to_multiset() == b.to_multiset(),
    ensures
        seq_sum(a) == seq_sum(b),
    decreases a.len(),
{
    broadcast use vstd::seq_lib::group_to_multiset_ensures;

    assert(a.to_multiset().len() == a.len());
    assert(b.to_multiset().len() == b.len());
    if a.len() == 0 {
        assert(b.len() == 0);
    } else {
        let x = a.last();
        let q = a.drop_last();
        assert(q.push(x) =~= a);
        assert(a.to_multiset().count(x) > 0);
        assert(b.contains(x));
        let j = choose|j: int| 0 <= j < b.len() && b[j] == x;
        assert(b.remove(j).to_multiset() == b.to_multiset().remove(x));
        assert(q.to_multiset() =~= a.to_multiset().remove(x));
        law_sum_order_free(q, b.remove(j));
        lemma_seq_sum_remove(b, j);
    }
}

/// Each group's sequence from `group_array` is the parsed values of that
/// group's records, in their arrival order.
pub proof fn law_collect_per_group(rows: Seq<Seq<Field>>, cols: Seq<usize>, vcol: usize)
    requires
        collect_outcome(rows, cols, vcol) is Ok,
    ensures
        entries(rows, cols, vcol) is Ok,
        forall|i: int|
            0 <= i < collect_outcome(rows, cols, vcol)->Ok_0.len() ==> (
            #[trigger] collect_outcome(rows, cols, vcol)->Ok_0[i]).1 == group_values(
                entries(rows, cols, vcol)->Ok_0,
                collect_outcome(rows, cols, vcol)->Ok_0[i].0,
            ),
{
    lemma_collect_shape(entries(rows, cols, vcol)->Ok_0);
}

/// Rendering an integer and reading the text back gives the integer.
pub proof fn law_render_parse_round_trip(n: i64)
    ensures
        i64_value(int_text(n as int)) == Some(n),
{
    lemma_int_text_round_trip(n as int);
}

/// Grouping by one position keys each record by that one field's display form.
pub proof fn law_single_position_key(row: Seq<Field>, c: usize)
    requires
        c < row.len(),
    ensures
        record_key(row, seq![c]) == seq![field_text(row[c as int])],
{
    assert(record_key(row, seq![c]) =~= seq![field_text(row[c as int])]);
}

/// Grouping by every position, in order, gives one group per distinct rendered record.
pub proof fn law_all_positions_key(rows: Seq<Seq<Field>>, n: nat, vcol: usize)
    requires
        n <= usize::MAX,
        forall|i: int| 0 <= i < rows.len() ==> (#[trigger] rows[i]).len() == n,
    ensures
        input_keys(rows, all_positions(n)) == rendered_rows(rows),
        sum_outcome(rows, all_positions(n), vcol) is Ok ==> sum_outcome(
            rows,
            all_positions(n),
            vcol,
        )->Ok_0.len() == rendered_rows(rows).to_set().len(),
        collect_outcome(rows, all_positions(n), vcol) is Ok ==> collect_outcome(
            rows,
            all_positions(n),
            vcol,
        )->Ok_0.len() == rendered_rows(rows).to_set().len(),
{
    let cols = all_positions(n);
    assert forall|i: int| 0 <= i < rows.len() implies #[trigger] input_keys(rows, cols)[i]
        == rendered_rows(rows)[i] by {
        let row = rows[i];
        assert forall|j: int| 0 <= j < n implies #[trigger] record_key(row, cols)[j] == field_text(
            row[j],
        ) by {
            assert(cols[j] as int == j);
        }
        assert(record_key(row, cols) =~= row.map_values(|f: Field| field_text(f)));
    }
    assert(input_keys(rows, cols) =~= rendered_rows(rows));
    law_distinct_key_count(rows, cols, vcol);
}

} // verus!
