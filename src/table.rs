//! The aggregate table: group keys in first-seen order, each with one value.
//!
//! The keys live in an `indexmap::IndexSet`, which hands out each key's dense
//! slot number; the values live in a `Vec` at the same slot.
use indexmap::IndexSet;
use vstd::prelude::*;

verus! {

/// A composite group key: the rendered forms of the group-by fields, in the
/// order the positions were declared.
pub type GroupKey = Vec<String>;

/// The mathematical form of a group key.
pub type KeyView = Seq<Seq<char>>;

#[verifier::external_type_specification]
#[verifier::external_body]
#[verifier::reject_recursive_types(T)]
#[verifier::reject_recursive_types(S)]
pub struct ExIndexSet<T, S>(IndexSet<T, S>);

/// The keys an `IndexSet` of group keys holds, in their order.
pub uninterp spec fn ordered_keys(s: IndexSet<GroupKey>) -> Seq<KeyView>;

/// Relies on `IndexSet::new`: a new set is empty.
#[verifier::external_body]
fn key_set_new() -> (r: IndexSet<GroupKey>)
    ensures
        ordered_keys(r) == Seq::<KeyView>::empty(),
{
    IndexSet::new()
}

/// Relies on `IndexSet::len`: the number of keys held.
#[verifier::external_body]
fn key_set_len(s: &IndexSet<GroupKey>) -> (r: usize)
    ensures
        r == ordered_keys(*s).len(),
{
    s.len()
}

/// Relies on `IndexSet::insert_full`: an equal key already held keeps its
/// place and its index is returned with `false`; otherwise the key goes last
/// and its index is returned with `true`.
#[verifier::external_body]
fn key_set_insert_full(s: &mut IndexSet<GroupKey>, k: GroupKey) -> (r: (usize, bool))
    ensures
        ordered_keys(*old(s)).contains(k.deep_view()) ==> {
            &&& !r.1
            &&& r.0 < ordered_keys(*old(s)).len()
            &&& ordered_keys(*old(s))[r.0 as int] == k.deep_view()
            &&& ordered_keys(*final(s)) == ordered_keys(*old(s))
        },
        !ordered_keys(*old(s)).contains(k.deep_view()) ==> {
            &&& r.1
            &&& r.0 == ordered_keys(*old(s)).len()
            &&& ordered_keys(*final(s)) == ordered_keys(*old(s)).push(k.deep_view())
        },
{
    s.insert_full(k)
}

/// Relies on `IndexSet::get_index_of`: the index of an equal key, if one is held.
#[verifier::external_body]
fn key_set_index_of(s: &IndexSet<GroupKey>, k: &GroupKey) -> (r: Option<usize>)
    ensures
        match r {
            Some(i) => i < ordered_keys(*s).len() && ordered_keys(*s)[i as int] == k.deep_view(),
            None => !ordered_keys(*s).contains(k.deep_view()),
        },
{
    s.get_index_of(k)
}

/// Relies on `IndexSet::get_index`: the key at a slot, if the slot is in use.
#[verifier::external_body]
fn key_set_get_index(s: &IndexSet<GroupKey>, i: usize) -> (r: Option<&GroupKey>)
    ensures
        i < ordered_keys(*s).len() ==> r.is_some() && r.unwrap().deep_view()
            == ordered_keys(*s)[i as int],
        i >= ordered_keys(*s).len() ==> r.is_none(),
{
    s.get_index(i)
}

/// An ordered mapping from group key to an accumulated value. Iteration order
/// is the order in which each key was first seen; keys are unique.
pub struct Aggregate<V> {
    keys: IndexSet<GroupKey>,
    values: Vec<V>,
}

impl<V: View> View for Aggregate<V> {
    type V = Seq<(KeyView, V::V)>;

    closed spec fn view(&self) -> Seq<(KeyView, V::V)> {
        Seq::new(self.values@.len(), |i: int| (ordered_keys(self.keys)[i], self.values@[i]@))
    }
}

/// The keys of a table's view, in order.
pub open spec fn table_keys<W>(t: Seq<(KeyView, W)>) -> Seq<KeyView> {
    t.map_values(|e: (KeyView, W)| e.0)
}

impl<V: View> Aggregate<V> {
    /// One value per key, and no key twice.
    pub closed spec fn wf(&self) -> bool {
        &&& ordered_keys(self.keys).len() == self.values@.len()
        &&& ordered_keys(self.keys).no_duplicates()
    }

    /// An empty table.
    pub(crate) fn empty() -> (r: Self)
        ensures
            r.wf(),
            r@ == Seq::<(KeyView, V::V)>::empty(),
    {
        let r = Aggregate { keys: key_set_new(), values: Vec::new() };
        assert(r@ =~= Seq::<(KeyView, V::V)>::empty());
        r
    }

    /// The number of distinct keys.
    pub fn len(&self) -> (r: usize)
        requires
            self.wf(),
        ensures
            r == self@.len(),
    {
        key_set_len(&self.keys)
    }

    /// Whether the table holds no key.
    pub fn is_empty(&self) -> (r: bool)
        requires
            self.wf(),
        ensures
            r == (self@.len() == 0),
    {
        self.len() == 0
    }

    /// The key at a position of the iteration order.
    pub fn key_at(&self, i: usize) -> (r: Option<&GroupKey>)
        requires
            self.wf(),
        ensures
            i < self@.len() ==> r.is_some() && r.unwrap().deep_view() == self@[i as int].0,
            i >= self@.len() ==> r.is_none(),
    {
        key_set_get_index(&self.keys, i)
    }

    /// The value at a position of the iteration order.
    pub fn value_at(&self, i: usize) -> (r: Option<&V>)
        requires
            self.wf(),
        ensures
            i < self@.len() ==> r.is_some() && r.unwrap()@ == self@[i as int].1,
            i >= self@.len() ==> r.is_none(),
    {
        if i < self.values.len() {
            Some(&self.values[i])
        } else {
            None
        }
    }

    /// The position of a key in the iteration order, if the table holds it.
    pub fn index_of(&self, key: &GroupKey) -> (r: Option<usize>)
        requires
            self.wf(),
        ensures
            match r {
                Some(i) => i < self@.len() && self@[i as int].0 == key.deep_view(),
                None => !table_keys(self@).contains(key.deep_view()),
            },
    {
        let r = key_set_index_of(&self.keys, key);
        proof {
            assert(table_keys(self@) =~= ordered_keys(self.keys));
        }
        r
    }

    /// The value held for a key, if the table holds it.
    pub fn get(&self, key: &GroupKey) -> (r: Option<&V>)
        requires
            self.wf(),
        ensures
            match r {
                Some(v) => exists|i: int|
                    0 <= i < self@.len() && self@[i].0 == key.deep_view() && v@ == self@[i].1,
                None => !table_keys(self@).contains(key.deep_view()),
            },
    {
        match self.index_of(key) {
            Some(i) => Some(&self.values[i]),
            None => None,
        }
    }

    /// The slot of `key`, which is added with `seed` if it is new.
    pub(crate) fn slot_for(&mut self, key: GroupKey, seed: V) -> (r: usize)
        requires
            old(self).wf(),
        ensures
            final(self).wf(),
            r < final(self)@.len(),
            final(self)@[r as int].0 == key.deep_view(),
            table_keys(old(self)@).contains(key.deep_view()) ==> r == table_keys(old(self)@).index_of(
                key.deep_view(),
            ),
            !table_keys(old(self)@).contains(key.deep_view()) ==> r == old(self)@.len(),
            table_keys(old(self)@).contains(key.deep_view()) ==> final(self)@ == old(self)@,
            !table_keys(old(self)@).contains(key.deep_view()) ==> final(self)@ == old(self)@.push(
                (key.deep_view(), seed@),
            ),
    {
        let ghost kv = key.deep_view();
        proof {
            assert(table_keys(self@) =~= ordered_keys(self.keys));
        }
        let (i, fresh) = key_set_insert_full(&mut self.keys, key);
        if fresh {
            self.values.push(seed);
            proof {
                assert(ordered_keys(self.keys).no_duplicates()) by {
                    let ks = ordered_keys(self.keys);
                    assert forall|a: int, b: int|
                        0 <= a < ks.len() && 0 <= b < ks.len() && a != b implies ks[a]
                        != ks[b] by {
                        if a == ks.len() - 1 || b == ks.len() - 1 {
                            assert(!old(self).keys_view().contains(kv));
                        }
                    }
                }
                assert(self@ =~= old(self)@.push((kv, seed@)));
            }
        } else {
            proof {
                assert(self@ =~= old(self)@);
                let ks = old(self).keys_view();
                let m = ks.index_of(kv);
                assert(ks[m] == kv);
                assert(m == i);
            }
        }
        i
    }

    /// Puts `v` at a slot and hands back the value that stood there.
    pub(crate) fn replace_value(&mut self, i: usize, v: V) -> (r: V)
        requires
            old(self).wf(),
            i < old(self)@.len(),
        ensures
            final(self).wf(),
            r@ == old(self)@[i as int].1,
            final(self)@ == old(self)@.update(i as int, (old(self)@[i as int].0, v@)),
    {
        let mut v = v;
        self.values.set_and_swap(i, &mut v);
        proof {
            assert(self@ =~= old(self)@.update(i as int, (old(self)@[i as int].0, self.values@[i as int]@)));
        }
        v
    }

    pub(crate) closed spec fn keys_view(&self) -> Seq<KeyView> {
        ordered_keys(self.keys)
    }
}

} // verus!
