//! A small map for values that cannot be copied, kept as a list of rows.

use crate::types::{Address, BondId};
use vstd::prelude::*;

verus! {

/// A key of a table: a plain value that can be compared for equality.
pub trait Key: Copy + Sized {
    /// Whether the two keys are the same.
    fn same(&self, other: &Self) -> (r: bool)
        ensures
            r == (*self == *other),
    ;
}

impl Key for Address {
    fn same(&self, other: &Self) -> (r: bool) {
        self.0 == other.0
    }
}

impl Key for BondId {
    fn same(&self, other: &Self) -> (r: bool) {
        self.source.0 == other.source.0 && self.validator.0 == other.validator.0
    }
}

/// What a list of rows holds: for each key the value of its last row.
pub open spec fn rows_map<K, V>(rows: Seq<(K, V)>) -> Map<K, V>
    decreases rows.len(),
{
    if rows.len() == 0 {
        Map::empty()
    } else {
        rows_map(rows.drop_last()).insert(rows.last().0, rows.last().1)
    }
}

/// A row that no later row overrides shows in the map.
proof fn lemma_rows_map_last<K, V>(rows: Seq<(K, V)>, i: int)
    requires
        0 <= i < rows.len(),
        forall|j: int| i < j < rows.len() ==> rows[j].0 != rows[i].0,
    ensures
        rows_map(rows).dom().contains(rows[i].0),
        rows_map(rows)[rows[i].0] == rows[i].1,
    decreases rows.len(),
{
    if i < rows.len() - 1 {
        lemma_rows_map_last(rows.drop_last(), i);
    }
}

/// A key without a row does not show in the map.
proof fn lemma_rows_map_absent<K, V>(rows: Seq<(K, V)>, key: K)
    requires
        forall|j: int| 0 <= j < rows.len() ==> rows[j].0 != key,
    ensures
        !rows_map(rows).dom().contains(key),
    decreases rows.len(),
{
    if rows.len() > 0 {
        lemma_rows_map_absent(rows.drop_last(), key);
    }
}

/// Replacing the last row of a key changes the map at that key alone.
proof fn lemma_rows_map_update<K, V>(rows: Seq<(K, V)>, i: int, value: V)
    requires
        0 <= i < rows.len(),
        forall|j: int| i < j < rows.len() ==> rows[j].0 != rows[i].0,
    ensures
        rows_map(rows.update(i, (rows[i].0, value))) == rows_map(rows).insert(rows[i].0, value),
    decreases rows.len(),
{
    let next = rows.update(i, (rows[i].0, value));
    if i < rows.len() - 1 {
        lemma_rows_map_update(rows.drop_last(), i, value);
        assert(next.drop_last() =~= rows.drop_last().update(i, (rows[i].0, value)));
        assert(rows_map(next) =~= rows_map(rows).insert(rows[i].0, value));
    } else {
        assert(next.drop_last() =~= rows.drop_last());
        assert(rows_map(next) =~= rows_map(rows).insert(rows[i].0, value));
    }
}

/// A map from keys to values, with the value written last for each key.
#[derive(Debug, PartialEq, Eq)]
pub struct Table<K, V> {
    rows: Vec<(K, V)>,
}

impl<K, V> View for Table<K, V> {
    type V = Map<K, V>;

    closed spec fn view(&self) -> Map<K, V> {
        rows_map(self.rows@)
    }
}

impl<K: Key, V> Table<K, V> {
    /// The table without rows.
    pub fn new() -> (r: Self)
        ensures
            r@ == Map::<K, V>::empty(),
    {
        Table { rows: Vec::new() }
    }

    /// The index of the last row of `key`.
    fn find(&self, key: &K) -> (r: Option<usize>)
        ensures
            match r {
                Some(i) => i < self.rows@.len() && self.rows@[i as int].0 == *key && forall|j: int|
                    i < j < self.rows@.len() ==> self.rows@[j].0 != *key,
                None => forall|j: int| 0 <= j < self.rows@.len() ==> self.rows@[j].0 != *key,
            },
    {
        let mut i: usize = self.rows.len();
        while i > 0
            invariant
                i <= self.rows.len(),
                forall|j: int| i <= j < self.rows@.len() ==> self.rows@[j].0 != *key,
            decreases i,
        {
            if self.rows[i - 1].0.same(key) {
                return Some(i - 1);
            }
            i = i - 1;
        }
        None
    }

    /// The value of `key`, if it has one.
    pub fn get(&self, key: &K) -> (r: Option<&V>)
        ensures
            r == if self@.dom().contains(*key) {
                Some(&self@[*key])
            } else {
                None
            },
    {
        match self.find(key) {
            Some(i) => {
                proof {
                    lemma_rows_map_last(self.rows@, i as int);
                }
                Some(&self.rows[i].1)
            },
            None => {
                proof {
                    lemma_rows_map_absent(self.rows@, *key);
                }
                None
            },
        }
    }

    /// Whether `key` has a value.
    pub fn contains_key(&self, key: &K) -> (r: bool)
        ensures
            r == self@.dom().contains(*key),
    {
        self.get(key).is_some()
    }

    /// Gives `key` the value `value`.
    pub fn put(&mut self, key: K, value: V)
        ensures
            final(self)@ == old(self)@.insert(key, value),
    {
        match self.find(&key) {
            Some(i) => {
                proof {
                    lemma_rows_map_update(self.rows@, i as int, value);
                }
                self.rows.set(i, (key, value));
            },
            None => {
                self.rows.push((key, value));
                proof {
                    assert(self.rows@.drop_last() =~= old(self).rows@);
                }
            },
        }
    }
}

} // verus!
