//! Sets of ranks that are waited for.

use std::collections::HashSet;
use vstd::prelude::*;
use vstd::std_specs::iter::IteratorSpec;

verus! {

/// The ranks of a communicator of a given size.
pub open spec fn ranks_below(nranks: i32) -> Set<i32> {
    Set::new(|i: i32| 0 <= i < nranks)
}

/// The ranks below a bound that are in a set, in ascending order.
pub open spec fn ascending_below(s: Set<i32>, bound: int) -> Seq<i32>
    decreases bound - i32::MIN,
{
    if bound <= i32::MIN {
        seq![]
    } else if s.contains((bound - 1) as i32) {
        ascending_below(s, bound - 1).push((bound - 1) as i32)
    } else {
        ascending_below(s, bound - 1)
    }
}

/// The ranks of a set in ascending order.
pub open spec fn ascending(s: Set<i32>) -> Seq<i32> {
    ascending_below(s, i32::MAX + 1)
}

/// Whether some ranks are those of a set, in ascending order.
spec fn lists(l: Seq<i32>, s: Set<i32>) -> bool {
    &&& forall|i: int, j: int| 0 <= i < j < l.len() ==> #[trigger] l[i] < #[trigger] l[j]
    &&& forall|r: i32| #[trigger] l.contains(r) <==> s.contains(r)
}

proof fn lemma_ascending_below(s: Set<i32>, bound: int)
    requires
        bound <= i32::MAX + 1,
    ensures
        lists(ascending_below(s, bound), s.filter(|r: i32| r < bound)),
    decreases bound - i32::MIN,
{
    let l = ascending_below(s, bound);
    let part = s.filter(|r: i32| r < bound);
    if bound > i32::MIN {
        let top = (bound - 1) as i32;
        let before = ascending_below(s, bound - 1);
        let rest = s.filter(|r: i32| r < bound - 1);
        lemma_ascending_below(s, bound - 1);
        assert forall|i: int| 0 <= i < before.len() implies #[trigger] before[i] < top by {
            assert(before.contains(before[i]));
            assert(rest.contains(before[i]));
        }
        assert forall|r: i32| #[trigger] l.contains(r) <==> part.contains(r) by {
            assert(before.contains(r) <==> rest.contains(r));
            if before.contains(r) {
                let k = choose|k: int| 0 <= k < before.len() && before[k] == r;
                assert(l[k] == r);
            }
            if s.contains(top) {
                assert(l[before.len() as int] == top);
                if l.contains(r) && r != top {
                    let k = choose|k: int| 0 <= k < l.len() && l[k] == r;
                    assert(before[k] == r);
                }
            }
        }
    }
}

/// The ranks of a set are listed each once, from the lowest to the highest, and nothing
/// else is.
pub proof fn law_ascending(s: Set<i32>)
    ensures
        forall|i: int, j: int|
            0 <= i < j < ascending(s).len() ==> #[trigger] ascending(s)[i] < #[trigger] ascending(
                s,
            )[j],
        forall|r: i32| #[trigger] ascending(s).contains(r) <==> s.contains(r),
{
    lemma_ascending_below(s, i32::MAX + 1);
    assert forall|r: i32| #[trigger] ascending(s).contains(r) <==> s.contains(r) by {
        assert(ascending(s).contains(r) <==> s.filter(|r: i32| r < i32::MAX + 1).contains(r));
    }
}

/// There is one way to list a set in ascending order.
proof fn lemma_lists_once(a: Seq<i32>, b: Seq<i32>, s: Set<i32>)
    requires
        lists(a, s),
        lists(b, s),
    ensures
        a == b,
    decreases a.len(),
{
    if a.len() == 0 || b.len() == 0 {
        if a.len() > 0 {
            assert(a.contains(a[0]));
            assert(b.contains(a[0]));
        }
        if b.len() > 0 {
            assert(b.contains(b[0]));
            assert(a.contains(b[0]));
        }
        assert(a =~= b);
    } else {
        let x = a.last();
        let y = b.last();
        assert(a.contains(x) && b.contains(y));
        assert(b.contains(x) && a.contains(y));
        let i = choose|i: int| 0 <= i < b.len() && b[i] == x;
        let j = choose|j: int| 0 <= j < a.len() && a[j] == y;
        assert(x <= y) by {
            if i < b.len() - 1 {
                assert(b[i] < b[b.len() - 1]);
            }
        }
        assert(y <= x) by {
            if j < a.len() - 1 {
                assert(a[j] < a[a.len() - 1]);
            }
        }
        lemma_lists_front(a, s);
        lemma_lists_front(b, s);
        lemma_lists_once(a.drop_last(), b.drop_last(), s.remove(x));
        assert(a =~= a.drop_last().push(x));
        assert(b =~= b.drop_last().push(y));
    }
}

proof fn lemma_lists_front(l: Seq<i32>, s: Set<i32>)
    requires
        lists(l, s),
        l.len() > 0,
    ensures
        lists(l.drop_last(), s.remove(l.last())),
{
    let front = l.drop_last();
    let top = l.last();
    assert forall|r: i32| #[trigger] front.contains(r) <==> s.remove(top).contains(r) by {
        assert(l.contains(r) <==> s.contains(r));
        if front.contains(r) {
            let k = choose|k: int| 0 <= k < front.len() && front[k] == r;
            assert(l[k] == r);
            assert(l[k] < l[l.len() - 1]);
        }
        if l.contains(r) && r != top {
            let k = choose|k: int| 0 <= k < l.len() && l[k] == r;
            assert(front[k] == r);
        }
    }
}

/// Puts a rank in its place among ascending ones.
fn insert_rank(l: &mut Vec<i32>, rank: i32, Ghost(s): Ghost<Set<i32>>)
    requires
        lists(old(l)@, s),
    ensures
        lists(final(l)@, s.insert(rank)),
{
    let ghost before = l@;
    let mut i: usize = 0;
    while i < l.len() && l[i] < rank
        invariant
            i <= l@.len(),
            l@ == before,
            forall|k: int| 0 <= k < i ==> l@[k] < rank,
        decreases l@.len() - i,
    {
        i += 1;
    }
    if i < l.len() && l[i] == rank {
        assert(before.contains(rank));
        assert(s.insert(rank) =~= s);
    } else {
        l.insert(i, rank);
        let ghost after = l@;
        proof {
            let n = i as int;
            assert(after =~= before.insert(n, rank));
            assert forall|a: int, b: int| 0 <= a < b < after.len() implies #[trigger] after[a]
                < #[trigger] after[b] by {
                let x = if a > n {
                    a - 1
                } else {
                    a
                };
                let y = if b > n {
                    b - 1
                } else {
                    b
                };
                if n < before.len() {
                    assert(before[n] > rank);
                }
                if a == n {
                    assert(after[b] == before[y]);
                    if y > n {
                        assert(before[n] < before[y]);
                    }
                } else if b == n {
                    assert(after[a] == before[a]);
                } else {
                    assert(after[a] == before[x] && after[b] == before[y]);
                }
            }
            assert forall|r: i32| #[trigger] after.contains(r) <==> s.insert(rank).contains(r) by {
                assert(before.contains(r) <==> s.contains(r));
                assert(after[n] == rank);
                if before.contains(r) {
                    let k = choose|k: int| 0 <= k < before.len() && before[k] == r;
                    if k < n {
                        assert(after[k] == r);
                    } else {
                        assert(after[k + 1] == r);
                    }
                }
                if after.contains(r) && r != rank {
                    let k = choose|k: int| 0 <= k < after.len() && after[k] == r;
                    if k < n {
                        assert(before[k] == r);
                    } else {
                        assert(before[k - 1] == r);
                    }
                }
            }
        }
    }
}

proof fn lemma_one_more(l: Seq<i32>, n: int)
    requires
        0 <= n < l.len(),
    ensures
        forall|x: i32| #[trigger]
            l.take(n + 1).contains(x) <==> l.take(n).contains(x) || x == l[n],
{
    let before = l.take(n);
    let now = l.take(n + 1);
    assert forall|x: i32| #[trigger] now.contains(x) <==> before.contains(x) || x == l[n] by {
        assert(now[n] == l[n]);
        if before.contains(x) {
            let k = choose|k: int| 0 <= k < before.len() && before[k] == x;
            assert(now[k] == x);
        }
        if now.contains(x) && x != l[n] {
            let k = choose|k: int| 0 <= k < now.len() && now[k] == x;
            assert(before[k] == x);
        }
    }
}

proof fn lemma_listed(l: Seq<i32>, s: Set<i32>)
    requires
        lists(l, s),
    ensures
        l == ascending(s),
{
    lemma_ascending_below(s, i32::MAX + 1);
    assert(s.filter(|r: i32| r < i32::MAX + 1) =~= s);
    lemma_lists_once(l, ascending(s), s);
}

/// The ranks of a set and one more in ascending order.
pub fn ascending_with(ranks: &HashSet<i32>, rank: i32) -> (l: Vec<i32>)
    ensures
        l@ == ascending(ranks@.insert(rank)),
{
    broadcast use vstd::std_specs::hash::group_hash_axioms;

    let mut l: Vec<i32> = Vec::new();
    let ghost mut done: Set<i32> = Set::empty();
    let ghost all = ranks.iter().remaining().unref();
    for r in it: ranks.iter()
        invariant
            it.seq().unref() == all,
            lists(l@, done),
            forall|x: i32| #[trigger] done.contains(x) <==> all.take(it.index()).contains(x),
    {
        insert_rank(&mut l, *r, Ghost(done));
        proof {
            assert(*r == all[it.index()]);
            lemma_one_more(all, it.index());
            done = done.insert(*r);
        }
    }
    proof {
        assert(all.take(all.len() as int) =~= all);
        assert forall|x: i32| done.contains(x) <==> ranks@.contains(x) by {
            assert(all.to_set().contains(x) <==> all.contains(x));
        }
        assert(done =~= ranks@);
    }
    insert_rank(&mut l, rank, Ghost(done));
    proof {
        lemma_listed(l@, done.insert(rank));
    }
    l
}

/// A set of ranks.
pub struct RankSet {
    ranks: Vec<i32>,
}

impl View for RankSet {
    type V = Set<i32>;

    closed spec fn view(&self) -> Set<i32> {
        Set::new(|r: i32| self.ranks@.contains(r))
    }
}

impl RankSet {
    /// The ranks of a communicator of a given size but one.
    pub fn others(nranks: i32, rank: i32) -> (s: RankSet)
        ensures
            s@ == ranks_below(nranks).remove(rank),
    {
        let mut ranks: Vec<i32> = Vec::new();
        let mut i: i32 = 0;
        while i < nranks
            invariant
                0 <= i,
                i <= nranks || i == 0,
                forall|x: i32| #[trigger] ranks@.contains(x) <==> (0 <= x < i && x != rank),
            decreases nranks - i,
        {
            if i != rank {
                let ghost prev = ranks@;
                ranks.push(i);
                assert forall|x: i32| #[trigger]
                    ranks@.contains(x) <==> (0 <= x < i + 1 && x != rank) by {
                    assert(prev.contains(x) <==> (0 <= x < i && x != rank));
                    if x == i {
                        assert(ranks@[prev.len() as int] == x);
                    } else if prev.contains(x) {
                        let k = choose|k: int| 0 <= k < prev.len() && prev[k] == x;
                        assert(ranks@[k] == x);
                    }
                }
            }
            i += 1;
        }
        let s = RankSet { ranks };
        assert(s@ =~= ranks_below(nranks).remove(rank));
        s
    }

    /// Takes a rank out.
    pub fn remove(&mut self, rank: i32)
        ensures
            final(self)@ == old(self)@.remove(rank),
    {
        let mut kept: Vec<i32> = Vec::new();
        let ghost all = self.ranks@;
        let mut i: usize = 0;
        while i < self.ranks.len()
            invariant
                i <= self.ranks@.len(),
                self.ranks@ == all,
                forall|x: i32| #[trigger]
                    kept@.contains(x) <==> x != rank && all.take(i as int).contains(x),
            decreases self.ranks@.len() - i,
        {
            let r = self.ranks[i];
            let ghost prev = kept@;
            if r != rank {
                kept.push(r);
            }
            proof {
                let now = all.take(i + 1);
                let before = all.take(i as int);
                assert forall|x: i32| #[trigger]
                    kept@.contains(x) <==> x != rank && now.contains(x) by {
                    assert(prev.contains(x) <==> x != rank && before.contains(x));
                    if before.contains(x) {
                        let k = choose|k: int| 0 <= k < before.len() && before[k] == x;
                        assert(now[k] == x);
                    }
                    if now.contains(x) && x != r {
                        let k = choose|k: int| 0 <= k < now.len() && now[k] == x;
                        assert(before[k] == x);
                    }
                    if prev.contains(x) {
                        let k = choose|k: int| 0 <= k < prev.len() && prev[k] == x;
                        assert(kept@[k] == x);
                    }
                    if x == r {
                        assert(now[i as int] == x);
                        if r != rank {
                            assert(kept@[prev.len() as int] == x);
                        }
                    }
                }
            }
            i += 1;
        }
        assert(all.take(all.len() as int) =~= all);
        self.ranks = kept;
        assert(self@ =~= old(self)@.remove(rank));
    }

    /// The ranks in ascending order.
    pub fn ascending(&self) -> (l: Vec<i32>)
        ensures
            l@ == ascending(self@),
    {
        let mut l: Vec<i32> = Vec::new();
        let ghost mut done: Set<i32> = Set::empty();
        let mut i: usize = 0;
        while i < self.ranks.len()
            invariant
                i <= self.ranks@.len(),
                lists(l@, done),
                forall|x: i32| #[trigger]
                    done.contains(x) <==> self.ranks@.take(i as int).contains(x),
            decreases self.ranks@.len() - i,
        {
            let r = self.ranks[i];
            insert_rank(&mut l, r, Ghost(done));
            proof {
                lemma_one_more(self.ranks@, i as int);
                done = done.insert(r);
            }
            i += 1;
        }
        proof {
            assert(self.ranks@.take(self.ranks@.len() as int) =~= self.ranks@);
            assert(done =~= self@);
            lemma_listed(l@, done);
        }
        l
    }

    /// The ranks but one in ascending order.
    pub fn ascending_without(&self, rank: i32) -> (l: Vec<i32>)
        ensures
            l@ == ascending(self@.remove(rank)),
    {
        let mut rest = RankSet { ranks: self.ranks.clone() };
        assert(rest.ranks@ =~= self.ranks@);
        rest.remove(rank);
        rest.ascending()
    }

    /// Whether there is no rank.
    pub fn is_empty(&self) -> (b: bool)
        ensures
            b == (self@ =~= Set::empty()),
    {
        if self.ranks.len() == 0 {
            assert(self@ =~= Set::empty());
            true
        } else {
            assert(self.ranks@.contains(self.ranks@[0]));
            assert(self@.contains(self.ranks@[0]));
            false
        }
    }

    /// Whether there is no rank but at most the given one.
    pub fn none_but(&self, rank: i32) -> (b: bool)
        ensures
            b == (self@.remove(rank) =~= Set::empty()),
    {
        let mut i: usize = 0;
        while i < self.ranks.len()
            invariant
                i <= self.ranks@.len(),
                forall|k: int| 0 <= k < i ==> self.ranks@[k] == rank,
            decreases self.ranks@.len() - i,
        {
            if self.ranks[i] != rank {
                assert(self.ranks@.contains(self.ranks@[i as int]));
                assert(self@.remove(rank).contains(self.ranks@[i as int]));
                return false;
            }
            i += 1;
        }
        assert(self@.remove(rank) =~= Set::empty());
        true
    }
}

} // verus!
