//! The key directory: an ordered map from each live key to the place of its
//! value, kept as a vector of entries in ascending order of their keys.

use crate::key_order::{
    key_lt, lemma_key_lt_asymmetric, lemma_key_lt_irreflexive, lemma_key_lt_transitive,
    order_keys, KeyOrder,
};
use crate::record::{Location, HEADER_LEN};
use vstd::prelude::*;

verus! {

/// The keys of `s` ascend strictly, so none occurs twice.
pub open spec fn sorted(s: Seq<(Seq<u8>, Location)>) -> bool {
    forall|i: int, j: int|
        #![trigger s[i], s[j]]
        0 <= i < j < s.len() ==> key_lt(s[i].0, s[j].0)
}

/// Some pair of `s` has the key `k`.
pub open spec fn has_key(s: Seq<(Seq<u8>, Location)>, k: Seq<u8>) -> bool {
    exists|i: int| 0 <= i < s.len() && #[trigger] s[i].0 == k
}

/// The index of a pair of `s` with the key `k`, where there is one.
pub open spec fn index_of(s: Seq<(Seq<u8>, Location)>, k: Seq<u8>) -> int {
    choose|i: int| 0 <= i < s.len() && #[trigger] s[i].0 == k
}

/// The map that a sequence of pairs stands for.
pub open spec fn pairs_to_map(s: Seq<(Seq<u8>, Location)>) -> Map<Seq<u8>, Location> {
    Map::new(|k: Seq<u8>| has_key(s, k), |k: Seq<u8>| s[index_of(s, k)].1)
}

/// In a sorted sequence each pair is what the map holds for its key.
pub proof fn lemma_pair_in_map(s: Seq<(Seq<u8>, Location)>, i: int)
    requires
        sorted(s),
        0 <= i < s.len(),
    ensures
        pairs_to_map(s).contains_key(s[i].0),
        pairs_to_map(s)[s[i].0] == s[i].1,
{
    let k = s[i].0;
    assert(has_key(s, k));
    let j = index_of(s, k);
    lemma_key_lt_irreflexive(k);
    if j < i {
        assert(key_lt(s[j].0, s[i].0));
    } else if i < j {
        assert(key_lt(s[i].0, s[j].0));
    }
}

/// Putting a new key at its place in the order adds it to the map.
pub proof fn lemma_insert_at(s: Seq<(Seq<u8>, Location)>, i: int, k: Seq<u8>, loc: Location)
    requires
        sorted(s),
        0 <= i <= s.len(),
        forall|j: int| 0 <= j < i ==> key_lt(#[trigger] s[j].0, k),
        forall|j: int| i <= j < s.len() ==> key_lt(k, #[trigger] s[j].0),
    ensures
        sorted(s.insert(i, (k, loc))),
        pairs_to_map(s.insert(i, (k, loc))) == pairs_to_map(s).insert(k, loc),
{
    let t = s.insert(i, (k, loc));
    assert forall|a: int, b: int| 0 <= a < b < t.len() implies key_lt(
        (#[trigger] t[a]).0,
        (#[trigger] t[b]).0,
    ) by {
        let a0 = if a < i { a } else { a - 1 };
        let b0 = if b < i { b } else { b - 1 };
        if a == i {
            assert(t[b] == s[b0]);
        } else if b == i {
            assert(t[a] == s[a0]);
        } else {
            assert(t[a] == s[a0]);
            assert(t[b] == s[b0]);
        }
    }
    let m = pairs_to_map(s).insert(k, loc);
    let n = pairs_to_map(t);
    assert forall|q: Seq<u8>| #[trigger]
        m.contains_key(q) implies n.contains_key(q) && n[q] == m[q] by {
        if q == k {
            assert(t[i] == (k, loc));
            lemma_pair_in_map(t, i);
        } else {
            let j = index_of(s, q);
            let j1 = if j < i { j } else { j + 1 };
            assert(t[j1] == s[j]);
            lemma_pair_in_map(t, j1);
            lemma_pair_in_map(s, j);
        }
    }
    assert forall|q: Seq<u8>| #[trigger] n.contains_key(q) implies m.contains_key(q) by {
        let j = index_of(t, q);
        if j != i {
            let j0 = if j < i { j } else { j - 1 };
            assert(t[j] == s[j0]);
            assert(has_key(s, q));
        }
    }
    assert(m =~= n);
}

/// Giving a key that is there a new place changes the map at that key only.
pub proof fn lemma_update_at(s: Seq<(Seq<u8>, Location)>, i: int, loc: Location)
    requires
        sorted(s),
        0 <= i < s.len(),
    ensures
        sorted(s.update(i, (s[i].0, loc))),
        pairs_to_map(s.update(i, (s[i].0, loc))) == pairs_to_map(s).insert(s[i].0, loc),
{
    let k = s[i].0;
    let t = s.update(i, (k, loc));
    assert forall|a: int, b: int| 0 <= a < b < t.len() implies key_lt(
        (#[trigger] t[a]).0,
        (#[trigger] t[b]).0,
    ) by {
        assert(t[a].0 == s[a].0);
        assert(t[b].0 == s[b].0);
    }
    let m = pairs_to_map(s).insert(k, loc);
    let n = pairs_to_map(t);
    assert forall|q: Seq<u8>| #[trigger]
        m.contains_key(q) implies n.contains_key(q) && n[q] == m[q] by {
        if q == k {
            lemma_pair_in_map(t, i);
        } else {
            let j = index_of(s, q);
            assert(t[j] == s[j]);
            lemma_pair_in_map(t, j);
            lemma_pair_in_map(s, j);
        }
    }
    assert forall|q: Seq<u8>| #[trigger] n.contains_key(q) implies m.contains_key(q) by {
        let j = index_of(t, q);
        if j != i {
            assert(t[j] == s[j]);
            assert(has_key(s, q));
        }
    }
    assert(m =~= n);
}

/// Taking a pair out takes its key out of the map.
pub proof fn lemma_remove_at(s: Seq<(Seq<u8>, Location)>, i: int)
    requires
        sorted(s),
        0 <= i < s.len(),
    ensures
        sorted(s.remove(i)),
        pairs_to_map(s.remove(i)) == pairs_to_map(s).remove(s[i].0),
{
    let k = s[i].0;
    let t = s.remove(i);
    assert forall|a: int, b: int| 0 <= a < b < t.len() implies key_lt(
        (#[trigger] t[a]).0,
        (#[trigger] t[b]).0,
    ) by {
        let a1 = if a < i { a } else { a + 1 };
        let b1 = if b < i { b } else { b + 1 };
        assert(t[a] == s[a1]);
        assert(t[b] == s[b1]);
    }
    let m = pairs_to_map(s).remove(k);
    let n = pairs_to_map(t);
    assert forall|q: Seq<u8>| #[trigger]
        m.contains_key(q) implies n.contains_key(q) && n[q] == m[q] by {
        let j = index_of(s, q);
        let j0 = if j < i { j } else { j - 1 };
        assert(t[j0] == s[j]);
        lemma_pair_in_map(t, j0);
        lemma_pair_in_map(s, j);
    }
    assert forall|q: Seq<u8>| #[trigger] n.contains_key(q) implies m.contains_key(q) by {
        let j = index_of(t, q);
        let j1 = if j < i { j } else { j + 1 };
        assert(t[j] == s[j1]);
        assert(has_key(s, q));
        lemma_key_lt_irreflexive(k);
        if j1 < i {
            assert(key_lt(s[j1].0, s[i].0));
        } else {
            assert(key_lt(s[i].0, s[j1].0));
        }
    }
    assert(m =~= n);
}

/// The bytes that the record of one entry takes: header, key and value.
pub open spec fn entry_weight(key: Seq<u8>, loc: Location) -> int {
    HEADER_LEN + key.len() + loc.len
}

/// The bytes that the records of the entries of `s` take together.
pub open spec fn weight(s: Seq<(Seq<u8>, Location)>) -> int
    decreases s.len(),
{
    if s.len() == 0 {
        0
    } else {
        weight(s.drop_last()) + entry_weight(s.last().0, s.last().1)
    }
}

/// The weight that the entry of `key` adds to a directory: none where the
/// key is not live.
pub open spec fn weight_of_key(dir: Map<Seq<u8>, Location>, key: Seq<u8>) -> int {
    if dir.contains_key(key) {
        entry_weight(key, dir[key])
    } else {
        0
    }
}

/// A new entry adds its weight.
pub proof fn lemma_weight_insert(s: Seq<(Seq<u8>, Location)>, i: int, x: (Seq<u8>, Location))
    requires
        0 <= i <= s.len(),
    ensures
        weight(s.insert(i, x)) == weight(s) + entry_weight(x.0, x.1),
    decreases s.len(),
{
    let t = s.insert(i, x);
    if i == s.len() {
        assert(t.drop_last() =~= s);
        assert(t.last() == x);
    } else {
        assert(t.drop_last() =~= s.drop_last().insert(i, x));
        assert(t.last() == s.last());
        lemma_weight_insert(s.drop_last(), i, x);
    }
}

/// An entry put in place of another changes the weight by their difference.
pub proof fn lemma_weight_update(s: Seq<(Seq<u8>, Location)>, i: int, x: (Seq<u8>, Location))
    requires
        0 <= i < s.len(),
    ensures
        weight(s.update(i, x)) == weight(s) - entry_weight(s[i].0, s[i].1) + entry_weight(
            x.0,
            x.1,
        ),
    decreases s.len(),
{
    let t = s.update(i, x);
    if i == s.len() - 1 {
        assert(t.drop_last() =~= s.drop_last());
        assert(t.last() == x);
    } else {
        assert(t.drop_last() =~= s.drop_last().update(i, x));
        assert(t.last() == s.last());
        lemma_weight_update(s.drop_last(), i, x);
    }
}

/// An entry taken out takes its weight with it.
pub proof fn lemma_weight_remove(s: Seq<(Seq<u8>, Location)>, i: int)
    requires
        0 <= i < s.len(),
    ensures
        weight(s.remove(i)) == weight(s) - entry_weight(s[i].0, s[i].1),
    decreases s.len(),
{
    let t = s.remove(i);
    if i == s.len() - 1 {
        assert(t =~= s.drop_last());
    } else {
        assert(t.drop_last() =~= s.drop_last().remove(i));
        assert(t.last() == s.last());
        lemma_weight_remove(s.drop_last(), i);
    }
}

/// The keys of `s`, in order.
pub open spec fn keys_of(s: Seq<(Seq<u8>, Location)>) -> Seq<Seq<u8>> {
    Seq::new(s.len(), |i: int| s[i].0)
}

/// Two sorted sequences with the same keys hold them in the same order: the
/// set of live keys decides the order of the directory's entries.
pub proof fn lemma_sorted_keys_unique(s: Seq<(Seq<u8>, Location)>, t: Seq<(Seq<u8>, Location)>)
    requires
        sorted(s),
        sorted(t),
        forall|k: Seq<u8>| has_key(s, k) <==> has_key(t, k),
    ensures
        keys_of(s) == keys_of(t),
    decreases s.len(),
{
    if s.len() == 0 {
        if t.len() > 0 {
            assert(t[0].0 == t[0].0);
            assert(has_key(t, t[0].0));
            assert(has_key(s, t[0].0));
        }
        assert(keys_of(s) =~= keys_of(t));
    } else if t.len() == 0 {
        assert(s[0].0 == s[0].0);
        assert(has_key(s, s[0].0));
        assert(has_key(t, s[0].0));
    } else {
        let a = s.last().0;
        let b = t.last().0;
        assert(has_key(s, a));
        assert(has_key(t, b));
        let j = index_of(t, a);
        let i = index_of(s, b);
        if a != b {
            assert(key_lt(t[j].0, t[t.len() - 1].0));
            assert(key_lt(s[i].0, s[s.len() - 1].0));
            lemma_key_lt_asymmetric(a, b);
        }
        let s1 = s.drop_last();
        let t1 = t.drop_last();
        assert forall|x: int, y: int| 0 <= x < y < s1.len() implies key_lt(
            (#[trigger] s1[x]).0,
            (#[trigger] s1[y]).0,
        ) by {
            assert(s1[x] == s[x] && s1[y] == s[y]);
        }
        assert forall|x: int, y: int| 0 <= x < y < t1.len() implies key_lt(
            (#[trigger] t1[x]).0,
            (#[trigger] t1[y]).0,
        ) by {
            assert(t1[x] == t[x] && t1[y] == t[y]);
        }
        assert forall|k: Seq<u8>| has_key(s1, k) <==> has_key(t1, k) by {
            lemma_key_lt_irreflexive(a);
            if has_key(s1, k) {
                let x = index_of(s1, k);
                assert(s[x].0 == k);
                assert(key_lt(s[x].0, s[s.len() - 1].0));
                assert(has_key(s, k));
                let y = index_of(t, k);
                assert(t1[y].0 == k);
            }
            if has_key(t1, k) {
                let y = index_of(t1, k);
                assert(t[y].0 == k);
                assert(key_lt(t[y].0, t[t.len() - 1].0));
                assert(has_key(t, k));
                let x = index_of(s, k);
                assert(s1[x].0 == k);
            }
        }
        lemma_sorted_keys_unique(s1, t1);
        assert(keys_of(s1).len() == keys_of(t1).len());
        assert forall|x: int| 0 <= x < s.len() implies keys_of(s)[x] == keys_of(t)[x] by {
            if x < s1.len() {
                assert(keys_of(s1)[x] == keys_of(t1)[x]);
            }
        }
        assert(keys_of(s) =~= keys_of(t));
    }
}

/// One entry of the directory.
struct Entry {
    key: Vec<u8>,
    loc: Location,
}

/// The key directory: for each live key the place of its latest value.
pub struct KeyDir {
    entries: Vec<Entry>,
}

impl KeyDir {
    /// The entries in the order in which the directory holds them.
    pub closed spec fn pairs(&self) -> Seq<(Seq<u8>, Location)> {
        Seq::new(self.entries@.len(), |i: int| (self.entries@[i].key@, self.entries@[i].loc))
    }

    /// The entries ascend by key.
    pub open spec fn wf(&self) -> bool {
        sorted(self.pairs())
    }

    /// The directory as a map from key to place.
    pub open spec fn view(&self) -> Map<Seq<u8>, Location> {
        pairs_to_map(self.pairs())
    }

    /// A directory without entries.
    pub fn new() -> (r: KeyDir)
        ensures
            r.wf(),
            r.pairs() == Seq::<(Seq<u8>, Location)>::empty(),
            r@ == Map::<Seq<u8>, Location>::empty(),
    {
        let r = KeyDir { entries: Vec::new() };
        proof {
            assert(r.pairs() =~= Seq::<(Seq<u8>, Location)>::empty());
            assert(r@ =~= Map::<Seq<u8>, Location>::empty());
        }
        r
    }

    /// The number of live keys.
    pub fn len(&self) -> (r: usize)
        ensures
            r == self.pairs().len(),
    {
        self.entries.len()
    }

    /// The key of the entry at `i`, counted in ascending order of the keys.
    pub fn key_at(&self, i: usize) -> (r: &Vec<u8>)
        requires
            i < self.pairs().len(),
        ensures
            r@ == self.pairs()[i as int].0,
    {
        &self.entries[i].key
    }

    /// The place held by the entry at `i`.
    pub fn location_at(&self, i: usize) -> (r: Location)
        requires
            i < self.pairs().len(),
        ensures
            r == self.pairs()[i as int].1,
    {
        self.entries[i].loc
    }

    /// Where `key` stands, or would stand, in the order, and whether it is
    /// there, by binary search.
    fn find(&self, key: &[u8]) -> (r: (usize, bool))
        requires
            self.wf(),
        ensures
            r.0 <= self.pairs().len(),
            forall|j: int| 0 <= j < r.0 ==> key_lt(#[trigger] self.pairs()[j].0, key@),
            forall|j: int|
                r.0 < j < self.pairs().len() ==> key_lt(key@, #[trigger] self.pairs()[j].0),
            r.1 ==> r.0 < self.pairs().len() && self.pairs()[r.0 as int].0 == key@,
            !r.1 ==> (r.0 < self.pairs().len() ==> key_lt(key@, self.pairs()[r.0 as int].0)),
            r.1 == self@.contains_key(key@),
    {
        let mut lo: usize = 0;
        let mut hi: usize = self.entries.len();
        while lo < hi
            invariant
                self.wf(),
                lo <= hi <= self.pairs().len(),
                self.pairs().len() == self.entries@.len(),
                forall|j: int| 0 <= j < lo ==> key_lt(#[trigger] self.pairs()[j].0, key@),
                forall|j: int|
                    hi <= j < self.pairs().len() ==> key_lt(key@, #[trigger] self.pairs()[j].0),
            decreases hi - lo,
        {
            let mid = lo + (hi - lo) / 2;
            let order = order_keys(self.entries[mid].key.as_slice(), key);
            proof {
                assert(self.pairs()[mid as int].0 == self.entries@[mid as int].key@);
            }
            match order {
                KeyOrder::Before => {
                    proof {
                        self.lemma_rest_before(key@, mid as int);
                    }
                    lo = mid + 1;
                },
                KeyOrder::Same => {
                    proof {
                        self.lemma_rest_before(key@, mid as int);
                        self.lemma_rest_after(key@, mid as int);
                        assert(has_key(self.pairs(), key@));
                    }
                    return (mid, true);
                },
                KeyOrder::After => {
                    proof {
                        self.lemma_rest_after(key@, mid as int);
                    }
                    hi = mid;
                },
            }
        }
        proof {
            self.lemma_not_there(key@, lo as int);
        }
        (lo, false)
    }

    proof fn lemma_rest_before(&self, key: Seq<u8>, i: int)
        requires
            self.wf(),
            0 <= i < self.pairs().len(),
            key == self.pairs()[i].0 || key_lt(self.pairs()[i].0, key),
        ensures
            forall|j: int| 0 <= j < i ==> key_lt(#[trigger] self.pairs()[j].0, key),
    {
        let s = self.pairs();
        assert forall|j: int| 0 <= j < i implies key_lt(#[trigger] s[j].0, key) by {
            assert(key_lt(s[j].0, s[i].0));
            if key != s[i].0 {
                lemma_key_lt_transitive(s[j].0, s[i].0, key);
            }
        }
    }

    proof fn lemma_rest_after(&self, key: Seq<u8>, i: int)
        requires
            self.wf(),
            0 <= i < self.pairs().len(),
            key == self.pairs()[i].0 || key_lt(key, self.pairs()[i].0),
        ensures
            forall|j: int| i < j < self.pairs().len() ==> key_lt(key, #[trigger] self.pairs()[j].0),
    {
        let s = self.pairs();
        assert forall|j: int| i < j < s.len() implies key_lt(key, #[trigger] s[j].0) by {
            assert(key_lt(s[i].0, s[j].0));
            if key != s[i].0 {
                lemma_key_lt_transitive(key, s[i].0, s[j].0);
            }
        }
    }

    proof fn lemma_not_there(&self, key: Seq<u8>, i: int)
        requires
            0 <= i <= self.pairs().len(),
            forall|j: int| 0 <= j < i ==> key_lt(#[trigger] self.pairs()[j].0, key),
            forall|j: int|
                i <= j < self.pairs().len() ==> key_lt(key, #[trigger] self.pairs()[j].0),
        ensures
            !self@.contains_key(key),
    {
        let s = self.pairs();
        if has_key(s, key) {
            let j = index_of(s, key);
            lemma_key_lt_irreflexive(key);
            if j < i {
                assert(key_lt(s[j].0, key));
            } else {
                assert(key_lt(key, s[j].0));
            }
        }
    }

    /// The place of the value of `key`, if the key is live.
    pub fn get(&self, key: &[u8]) -> (r: Option<Location>)
        requires
            self.wf(),
        ensures
            r == (if self@.contains_key(key@) {
                Some(self@[key@])
            } else {
                None
            }),
    {
        let (i, found) = self.find(key);
        if found {
            proof {
                lemma_pair_in_map(self.pairs(), i as int);
            }
            Some(self.entries[i].loc)
        } else {
            None
        }
    }

    /// Maps `key` to `loc`, whether or not the key was live before.
    pub fn insert(&mut self, key: Vec<u8>, loc: Location)
        requires
            old(self).wf(),
        ensures
            final(self).wf(),
            final(self)@ == old(self)@.insert(key@, loc),
            weight(final(self).pairs()) == weight(old(self).pairs()) - weight_of_key(
                old(self)@,
                key@,
            ) + entry_weight(key@, loc),
    {
        let (i, found) = self.find(key.as_slice());
        let ghost before = self.pairs();
        let ghost k = key@;
        if found {
            self.entries.set(i, Entry { key, loc });
            proof {
                assert(self.pairs() =~= before.update(i as int, (k, loc)));
                lemma_update_at(before, i as int, loc);
                lemma_pair_in_map(before, i as int);
                lemma_weight_update(before, i as int, (k, loc));
            }
        } else {
            self.entries.insert(i, Entry { key, loc });
            proof {
                assert(self.pairs() =~= before.insert(i as int, (k, loc)));
                lemma_insert_at(before, i as int, k, loc);
                lemma_weight_insert(before, i as int, (k, loc));
            }
        }
    }

    /// Takes `key` out; a key that is not live leaves the directory as it is.
    pub fn remove(&mut self, key: &[u8])
        requires
            old(self).wf(),
        ensures
            final(self).wf(),
            final(self)@ == old(self)@.remove(key@),
            weight(final(self).pairs()) == weight(old(self).pairs()) - weight_of_key(
                old(self)@,
                key@,
            ),
    {
        let (i, found) = self.find(key);
        let ghost before = self.pairs();
        if found {
            self.entries.remove(i);
            proof {
                assert(self.pairs() =~= before.remove(i as int));
                lemma_remove_at(before, i as int);
                lemma_pair_in_map(before, i as int);
                lemma_weight_remove(before, i as int);
            }
        } else {
            proof {
                assert(self@ =~= self@.remove(key@));
            }
        }
    }
}

} // verus!
