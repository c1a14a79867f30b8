//! A keyed table held as a vector of rows, in the order in which keys arrived.
//!
//! Keys are compared by their views, so a key may hold text.

use vstd::prelude::*;

verus! {

/// A key that can be compared with another key by what it stands for.
pub trait MapKey: View {
    /// Whether both keys stand for the same value.
    fn same_key(&self, other: &Self) -> (b: bool)
        ensures
            b == (self@ == other@),
    ;
}

impl MapKey for usize {
    fn same_key(&self, other: &Self) -> (b: bool) {
        *self == *other
    }
}

impl MapKey for u64 {
    fn same_key(&self, other: &Self) -> (b: bool) {
        *self == *other
    }
}

impl MapKey for i32 {
    fn same_key(&self, other: &Self) -> (b: bool) {
        *self == *other
    }
}

/// What a sequence of rows maps each key to: the first row of a key counts.
pub open spec fn rows_map<K: View, V: View>(rows: Seq<(K, V)>) -> Map<K::V, V::V>
    decreases rows.len(),
{
    if rows.len() == 0 {
        Map::empty()
    } else {
        let before = rows_map(rows.drop_last());
        if before.contains_key(rows.last().0@) {
            before
        } else {
            before.insert(rows.last().0@, rows.last().1@)
        }
    }
}

/// A table from keys to values.
pub struct Table<K, V> {
    rows: Vec<(K, V)>,
}

proof fn lemma_prefix<K: View, V: View>(rows: Seq<(K, V)>, n: int)
    requires
        0 <= n <= rows.len(),
    ensures
        forall|k: K::V|
            #[trigger] rows_map(rows.take(n)).contains_key(k) ==> rows_map(rows).contains_key(k)
                && rows_map(rows)[k] == rows_map(rows.take(n))[k],
    decreases rows.len() - n,
{
    if n == rows.len() {
        assert(rows.take(n) =~= rows);
    } else {
        lemma_prefix(rows, n + 1);
        assert(rows.take(n + 1).drop_last() =~= rows.take(n));
        assert forall|k: K::V| #[trigger] rows_map(rows.take(n)).contains_key(k) implies rows_map(
            rows,
        ).contains_key(k) && rows_map(rows)[k] == rows_map(rows.take(n))[k] by {
            assert(rows_map(rows.take(n + 1)).contains_key(k));
        }
    }
}

proof fn lemma_row_known<K: View, V: View>(rows: Seq<(K, V)>, i: int)
    requires
        0 <= i < rows.len(),
    ensures
        rows_map(rows).contains_key(rows[i].0@),
{
    lemma_prefix(rows, i + 1);
    assert(rows_map(rows.take(i + 1)).contains_key(rows[i].0@));
}

/// Rows below `n` do not hold `k`.
spec fn absent_below<K: View, V: View>(rows: Seq<(K, V)>, k: K::V, n: int) -> bool {
    forall|j: int| 0 <= j < n ==> (#[trigger] rows[j]).0@ != k
}

proof fn lemma_absent<K: View, V: View>(rows: Seq<(K, V)>, k: K::V)
    requires
        absent_below(rows, k, rows.len() as int),
    ensures
        !rows_map(rows).contains_key(k),
    decreases rows.len(),
{
    if rows.len() > 0 {
        assert(forall|j: int| 0 <= j < rows.len() - 1 ==> rows.drop_last()[j] == rows[j]);
        lemma_absent(rows.drop_last(), k);
    }
}

proof fn lemma_found<K: View, V: View>(rows: Seq<(K, V)>, k: K::V, i: int)
    requires
        0 <= i < rows.len(),
        rows[i].0@ == k,
        absent_below(rows, k, i),
    ensures
        rows_map(rows).contains_key(k),
        rows_map(rows)[k] == rows[i].1@,
{
    lemma_absent(rows.take(i), k);
    assert(rows.take(i + 1).drop_last() =~= rows.take(i));
    assert(rows_map(rows.take(i + 1)).contains_key(k));
    lemma_prefix(rows, i + 1);
}

proof fn lemma_replace<K: View, V: View>(rows: Seq<(K, V)>, i: int, row: (K, V))
    requires
        0 <= i < rows.len(),
        rows[i].0@ == row.0@,
        absent_below(rows, row.0@, i),
    ensures
        rows_map(rows.update(i, row)) == rows_map(rows).insert(row.0@, row.1@),
    decreases rows.len(),
{
    let k = row.0@;
    if i == rows.len() - 1 {
        assert(rows.update(i, row).drop_last() =~= rows.drop_last());
        assert(absent_below(rows.drop_last(), k, i)) by {
            assert(forall|j: int| 0 <= j < i ==> rows.drop_last()[j] == rows[j]);
        }
        lemma_absent(rows.drop_last(), k);
        assert(rows_map(rows.update(i, row)) =~= rows_map(rows).insert(k, row.1@));
    } else {
        assert(absent_below(rows.drop_last(), k, i)) by {
            assert(forall|j: int| 0 <= j < i ==> rows.drop_last()[j] == rows[j]);
        }
        lemma_replace(rows.drop_last(), i, row);
        assert(rows.update(i, row).drop_last() =~= rows.drop_last().update(i, row));
        lemma_found(rows.drop_last(), k, i);
        assert(rows_map(rows.update(i, row)) =~= rows_map(rows).insert(k, row.1@));
    }
}

impl<K: MapKey, V: View> View for Table<K, V> {
    type V = Map<K::V, V::V>;

    closed spec fn view(&self) -> Map<K::V, V::V> {
        rows_map(self.rows@)
    }
}

impl<K: MapKey, V: View> Table<K, V> {
    /// The keys, in the order in which they arrived.
    pub closed spec fn keys(&self) -> Seq<K::V> {
        self.rows@.map_values(|r: (K, V)| r.0@)
    }

    /// Whether every key has one row.
    pub open spec fn distinct(&self) -> bool {
        self.keys().no_duplicates()
    }

    /// An empty table.
    pub fn new() -> (t: Self)
        ensures
            t@ == Map::<K::V, V::V>::empty(),
            t.keys() == Seq::<K::V>::empty(),
    {
        let t = Table { rows: Vec::new() };
        assert(t.keys() =~= Seq::<K::V>::empty());
        t
    }

    fn find(&self, k: &K) -> (r: Option<usize>)
        ensures
            match r {
                Some(i) => i < self.rows@.len() && self.rows@[i as int].0@ == k@ && absent_below(
                    self.rows@,
                    k@,
                    i as int,
                ) && self@.contains_key(k@) && self@[k@] == self.rows@[i as int].1@,
                None => absent_below(self.rows@, k@, self.rows@.len() as int)
                    && !self@.contains_key(k@),
            },
    {
        let mut i: usize = 0;
        while i < self.rows.len()
            invariant
                i <= self.rows@.len(),
                absent_below(self.rows@, k@, i as int),
            decreases self.rows@.len() - i,
        {
            if self.rows[i].0.same_key(k) {
                proof {
                    lemma_found(self.rows@, k@, i as int);
                }
                return Some(i);
            }
            i += 1;
        }
        proof {
            lemma_absent(self.rows@, k@);
        }
        None
    }

    /// The value of a key.
    pub fn get(&self, k: &K) -> (r: Option<&V>)
        ensures
            match r {
                Some(v) => self@.contains_key(k@) && v@ == self@[k@],
                None => !self@.contains_key(k@),
            },
    {
        match self.find(k) {
            Some(i) => Some(&self.rows[i].1),
            None => None,
        }
    }

    /// Whether a key is there.
    pub fn contains_key(&self, k: &K) -> (b: bool)
        ensures
            b == self@.contains_key(k@),
    {
        self.find(k).is_some()
    }

    /// The value of a key, to change in place.
    pub fn get_mut(&mut self, k: &K) -> (r: Option<&mut V>)
        ensures
            match r {
                Some(v) => old(self)@.contains_key(k@) && v@ == old(self)@[k@] && final(self)@
                    == old(self)@.insert(k@, final(v)@) && final(self).keys() == old(self).keys(),
                None => !old(self)@.contains_key(k@) && *final(self) == *old(self),
            },
    {
        match self.find(k) {
            Some(i) => {
                let ghost before = self.rows@;
                let v = &mut self.rows[i].1;
                proof {
                    let row = (before[i as int].0, *final(v));
                    lemma_replace(before, i as int, row);
                    assert(before.update(i as int, row).map_values(|r: (K, V)| r.0@)
                        =~= before.map_values(|r: (K, V)| r.0@));
                }
                Some(v)
            },
            None => None,
        }
    }

    /// Maps a key to a value; the value it had before is dropped.
    pub fn insert(&mut self, k: K, v: V)
        ensures
            final(self)@ == old(self)@.insert(k@, v@),
            final(self).keys() == if old(self)@.contains_key(k@) {
                old(self).keys()
            } else {
                old(self).keys().push(k@)
            },
            old(self).distinct() ==> final(self).distinct(),
    {
        proof {
            self.lemma_keys();
            let keys = self.keys();
            if keys.no_duplicates() && !self@.contains_key(k@) {
                assert(!keys.contains(k@));
                let more = keys.push(k@);
                assert forall|i: int, j: int|
                    0 <= i < more.len() && 0 <= j < more.len() && i != j implies more[i]
                    != more[j] by {
                    if i < keys.len() {
                        assert(keys.contains(keys[i]));
                    }
                    if j < keys.len() {
                        assert(keys.contains(keys[j]));
                    }
                }
            }
        }
        match self.find(&k) {
            Some(i) => {
                let ghost before = self.rows@;
                proof {
                    lemma_replace(before, i as int, (k, v));
                    assert(before.update(i as int, (k, v)).map_values(|r: (K, V)| r.0@)
                        =~= before.map_values(|r: (K, V)| r.0@));
                }
                self.rows[i] = (k, v);
            },
            None => {
                let ghost before = self.rows@;
                proof {
                    assert(before.push((k, v)).drop_last() =~= before);
                    assert(before.push((k, v)).map_values(|r: (K, V)| r.0@)
                        =~= before.map_values(|r: (K, V)| r.0@).push(k@));
                }
                self.rows.push((k, v));
            },
        }
    }

    /// Takes a key and its value out.
    pub fn remove(&mut self, k: &K) -> (r: Option<V>)
        ensures
            final(self)@ == old(self)@.remove(k@),
            final(self).keys() == old(self).keys().filter(|x: K::V| x != k@),
            match r {
                Some(v) => old(self)@.contains_key(k@) && v@ == old(self)@[k@],
                None => !old(self)@.contains_key(k@),
            },
    {
        let mut rest: Vec<(K, V)> = Vec::new();
        let mut kept: Vec<(K, V)> = Vec::new();
        let ghost all = self.rows@;
        core::mem::swap(&mut rest, &mut self.rows);
        let mut taken: Option<V> = None;
        let ghost keys = |r: (K, V)| r.0@;
        let ghost other = |x: K::V| x != k@;
        for row in it: rest
            invariant
                it.seq() == all,
                keys == (|r: (K, V)| r.0@),
                other == (|x: K::V| x != k@),
                rows_map(kept@) == rows_map(all.take(it.index())).remove(k@),
                kept@.map_values(keys) == all.take(it.index()).map_values(keys).filter(other),
                match taken {
                    Some(v) => rows_map(all.take(it.index())).contains_key(k@) && v@ == rows_map(
                        all.take(it.index()),
                    )[k@],
                    None => !rows_map(all.take(it.index())).contains_key(k@),
                },
        {
            let ghost n = it.index();
            proof {
                let now = all.take(n + 1);
                assert(now.drop_last() =~= all.take(n));
                assert(now.map_values(keys) =~= all.take(n).map_values(keys).push(row.0@));
                reveal(Seq::filter);
                assert(all.take(n).map_values(keys).push(row.0@).drop_last()
                    =~= all.take(n).map_values(keys));
            }
            if row.0.same_key(k) {
                if taken.is_none() {
                    taken = Some(row.1);
                }
                assert(rows_map(kept@) =~= rows_map(all.take(n + 1)).remove(k@));
            } else {
                let ghost before = kept@;
                kept.push(row);
                proof {
                    assert(kept@.drop_last() =~= before);
                    assert(kept@.map_values(keys) =~= before.map_values(keys).push(row.0@));
                    assert(rows_map(kept@) =~= rows_map(all.take(n + 1)).remove(k@));
                }
            }
        }
        assert(all.take(all.len() as int) =~= all);
        self.rows = kept;
        taken
    }

    /// Takes over every key of another table, with its value there.
    pub fn extend(&mut self, other: Table<K, V>)
        ensures
            final(self)@ == old(self)@.union_prefer_right(other@),
            old(self).distinct() ==> final(self).distinct(),
    {
        let mut rest = other.rows;
        let ghost all = rest@;
        let ghost before = self@;
        let ghost begun = self.distinct();
        let ghost mut done = all.len() as int;
        let ghost goal = before.union_prefer_right(rows_map(all));
        assert(all.take(done) =~= all);
        assert(self@.remove_keys(rows_map(rest@).dom()) =~= goal.remove_keys(rows_map(rest@).dom()));
        while rest.len() > 0
            invariant
                0 <= done == rest@.len() <= all.len(),
                rest@ == all.take(done),
                begun ==> self.distinct(),
                goal == before.union_prefer_right(rows_map(all)),
                self@.remove_keys(rows_map(rest@).dom()) == goal.remove_keys(
                    rows_map(rest@).dom(),
                ),
            decreases rest@.len(),
        {
            let ghost prev = rest@;
            let ghost at = self@;
            if let Some((k, v)) = rest.pop() {
                proof {
                    done = done - 1;
                    assert(rest@ =~= all.take(done));
                    assert(prev.drop_last() =~= rest@);
                    lemma_prefix(all, done + 1);
                }
                self.insert(k, v);
                proof {
                    let gone = rows_map(rest@).dom();
                    assert forall|x: K::V| !gone.contains(x) implies self@.contains_key(x)
                        == goal.contains_key(x) && (goal.contains_key(x) ==> self@[x] == goal[x]) by {
                        if x != k@ {
                            assert(at.remove_keys(rows_map(prev).dom()).contains_key(x)
                                == goal.remove_keys(rows_map(prev).dom()).contains_key(x));
                            if goal.contains_key(x) {
                                assert(at.remove_keys(rows_map(prev).dom())[x]
                                    == goal.remove_keys(rows_map(prev).dom())[x]);
                            }
                        } else {
                            assert(rows_map(all.take(done + 1)).contains_key(x));
                        }
                    }
                    assert(self@.remove_keys(gone) =~= goal.remove_keys(gone));
                }
            }
        }
        assert(rest@ =~= Seq::empty());
        assert(self@.remove_keys(rows_map(rest@).dom()) =~= self@);
        assert(goal.remove_keys(rows_map(rest@).dom()) =~= goal);
    }

    /// The keys are those of the map.
    pub proof fn lemma_keys(&self)
        ensures
            forall|k: K::V| #[trigger] self@.contains_key(k) <==> self.keys().contains(k),
    {
        assert forall|k: K::V| #[trigger] self@.contains_key(k) <==> self.keys().contains(k) by {
            if self.keys().contains(k) {
                let i = choose|i: int| 0 <= i < self.keys().len() && self.keys()[i] == k;
                lemma_row_known(self.rows@, i);
            } else {
                assert(absent_below(self.rows@, k, self.rows@.len() as int)) by {
                    assert forall|j: int| 0 <= j < self.rows@.len() implies (
                    #[trigger] self.rows@[j]).0@ != k by {
                        assert(self.keys()[j] == self.rows@[j].0@);
                    }
                }
                lemma_absent(self.rows@, k);
            }
        }
    }

    /// The number of rows.
    pub fn len(&self) -> (n: usize)
        ensures
            n == self.keys().len(),
    {
        self.rows.len()
    }

    /// The key of row `i`.
    pub fn key_at(&self, i: usize) -> (k: &K)
        requires
            i < self.keys().len(),
        ensures
            k@ == self.keys()[i as int],
            self@.contains_key(k@),
    {
        proof {
            lemma_row_known(self.rows@, i as int);
        }
        &self.rows[i].0
    }
}

} // verus!
