//! A finite map keyed by node identifier.
//!
//! The entries are kept in a vector, in strictly increasing order of their
//! identifiers. An identifier therefore occurs at most once, and two maps with
//! the same contents hold the same sequence of entries.

use vstd::prelude::*;

verus! {

/// Whether the keys of `s` strictly increase from one entry to the next.
pub open spec fn keys_increasing<T>(s: Seq<(u64, T)>) -> bool {
    forall|i: int, j: int| 0 <= i < j < s.len() ==> (#[trigger] s[i]).0 < (#[trigger] s[j]).0
}

/// Whether no two entries of `s` have the same key.
pub open spec fn distinct_keys<T>(s: Seq<(u64, T)>) -> bool {
    forall|i: int, j: int|
        0 <= i < s.len() && 0 <= j < s.len() && i != j ==> (#[trigger] s[i]).0 != (#[trigger] s[j]).0
}

/// Whether some entry of `s` has the key `k`.
pub open spec fn has_key<T>(s: Seq<(u64, T)>, k: u64) -> bool {
    exists|i: int| 0 <= i < s.len() && (#[trigger] s[i]).0 == k
}

/// The position of an entry of `s` with the key `k`.
pub open spec fn index_of_key<T>(s: Seq<(u64, T)>, k: u64) -> int
    recommends
        has_key(s, k),
{
    choose|i: int| 0 <= i < s.len() && (#[trigger] s[i]).0 == k
}

/// The mapping that the entries of `s` describe.
pub open spec fn as_map<T>(s: Seq<(u64, T)>) -> Map<u64, T> {
    Map::new(|k: u64| has_key(s, k), |k: u64| s[index_of_key(s, k)].1)
}

/// The mapping `m` with each text taken as a sequence of characters.
pub open spec fn text_map(m: Map<u64, String>) -> Map<u64, Seq<char>> {
    Map::new(|id: u64| m.contains_key(id), |id: u64| m[id]@)
}

/// Keys that strictly increase are pairwise distinct.
pub proof fn lemma_increasing_distinct<T>(s: Seq<(u64, T)>)
    requires
        keys_increasing(s),
    ensures
        distinct_keys(s),
{
    assert forall|i: int, j: int| 0 <= i < s.len() && 0 <= j < s.len() && i != j implies (
    #[trigger] s[i]).0 != (#[trigger] s[j]).0 by {
        if i < j {
            assert(s[i].0 < s[j].0);
        } else {
            assert(s[j].0 < s[i].0);
        }
    }
}

/// With distinct keys, the entry at each position is the one the mapping
/// holds for its key.
pub proof fn lemma_entry_in_map<T>(s: Seq<(u64, T)>, i: int)
    requires
        distinct_keys(s) || keys_increasing(s),
        0 <= i < s.len(),
    ensures
        has_key(s, s[i].0),
        index_of_key(s, s[i].0) == i,
        as_map(s).contains_key(s[i].0),
        as_map(s)[s[i].0] == s[i].1,
{
    if keys_increasing(s) {
        lemma_increasing_distinct(s);
    }
    let k = s[i].0;
    assert(has_key(s, k));
    let j = index_of_key(s, k);
    assert(0 <= j < s.len() && s[j].0 == k);
}

/// Adding an entry with a key that is new, at the end, keeps the keys
/// distinct and adds the key to the mapping.
pub proof fn lemma_push_new<T>(s: Seq<(u64, T)>, k: u64, v: T)
    requires
        distinct_keys(s),
        !has_key(s, k),
    ensures
        distinct_keys(s.push((k, v))),
        as_map(s.push((k, v))) == as_map(s).insert(k, v),
{
    let t = s.push((k, v));
    assert(distinct_keys(t)) by {
        assert forall|i: int, j: int| 0 <= i < t.len() && 0 <= j < t.len() && i != j implies (
        #[trigger] t[i]).0 != (#[trigger] t[j]).0 by {
            if i < s.len() {
                assert(t[i] == s[i]);
            }
            if j < s.len() {
                assert(t[j] == s[j]);
            }
        }
    }
    assert forall|key: u64| has_key(t, key) <==> (key == k || has_key(s, key)) by {
        if has_key(t, key) {
            let i = index_of_key(t, key);
            if i < s.len() {
                assert(t[i] == s[i]);
            }
        }
        if key == k {
            assert(t[s.len() as int].0 == k);
        }
        if has_key(s, key) {
            let i = index_of_key(s, key);
            assert(t[i] == s[i]);
        }
    }
    assert forall|key: u64| has_key(t, key) implies #[trigger] as_map(t)[key] == as_map(s).insert(
        k,
        v,
    )[key] by {
        if key == k {
            lemma_entry_in_map(t, s.len() as int);
        } else {
            let i = index_of_key(s, key);
            lemma_entry_in_map(s, i);
            assert(t[i] == s[i]);
            lemma_entry_in_map(t, i);
        }
    }
    assert(as_map(t) =~= as_map(s).insert(k, v));
}

/// A mapping is described by one increasing sequence of entries only.
pub proof fn lemma_increasing_unique<T>(a: Seq<(u64, T)>, b: Seq<(u64, T)>)
    requires
        keys_increasing(a),
        keys_increasing(b),
        as_map(a) == as_map(b),
    ensures
        a == b,
    decreases a.len(),
{
    if a.len() == 0 {
        if b.len() > 0 {
            lemma_entry_in_map(b, 0);
            assert(as_map(a).contains_key(b[0].0));
            let i = index_of_key(a, b[0].0);
        }
        assert(a =~= b);
    } else {
        let la = a.len() - 1;
        lemma_entry_in_map(a, la);
        assert(as_map(b).contains_key(a[la].0));
        let jb = index_of_key(b, a[la].0);
        assert(0 <= jb < b.len() && b[jb].0 == a[la].0);
        let lb = b.len() - 1;
        lemma_entry_in_map(b, lb);
        assert(as_map(a).contains_key(b[lb].0));
        let ja = index_of_key(a, b[lb].0);
        assert(0 <= ja < a.len() && a[ja].0 == b[lb].0);
        // Each last key is the greatest of its sequence, and occurs in the other.
        if ja < la {
            assert(a[ja].0 < a[la].0);
        }
        if jb < lb {
            assert(b[jb].0 < b[lb].0);
        }
        assert(a[la].0 == b[lb].0);
        lemma_entry_in_map(b, lb);
        assert(a[la].1 == b[lb].1);
        lemma_remove(a, la);
        lemma_remove(b, lb);
        assert(a.remove(la) == a.drop_last());
        assert(b.remove(lb) == b.drop_last());
        lemma_increasing_unique(a.drop_last(), b.drop_last());
        assert(a =~= a.drop_last().push(a[la]));
        assert(b =~= b.drop_last().push(b[lb]));
    }
}

/// Putting a new key at its place in the order keeps the order and adds the
/// key to the mapping.
pub proof fn lemma_insert_new<T>(s: Seq<(u64, T)>, p: int, k: u64, v: T)
    requires
        keys_increasing(s),
        0 <= p <= s.len(),
        forall|i: int| 0 <= i < p ==> (#[trigger] s[i]).0 < k,
        forall|i: int| p <= i < s.len() ==> k < (#[trigger] s[i]).0,
    ensures
        keys_increasing(s.insert(p, (k, v))),
        as_map(s.insert(p, (k, v))) == as_map(s).insert(k, v),
{
    let t = s.insert(p, (k, v));
    assert(keys_increasing(t)) by {
        assert forall|i: int, j: int| 0 <= i < j < t.len() implies (#[trigger] t[i]).0 < (
        #[trigger] t[j]).0 by {
            if i < p {
                assert(t[i] == s[i]);
            } else if i > p {
                assert(t[i] == s[i - 1]);
            }
            if j < p {
                assert(t[j] == s[j]);
            } else if j > p {
                assert(t[j] == s[j - 1]);
            }
        }
    }
    assert forall|key: u64| has_key(t, key) <==> (key == k || has_key(s, key)) by {
        if has_key(t, key) {
            let i = index_of_key(t, key);
            if i < p {
                assert(t[i] == s[i]);
            } else if i > p {
                assert(t[i] == s[i - 1]);
            }
        }
        if key == k {
            assert(t[p].0 == k);
        }
        if has_key(s, key) {
            let i = index_of_key(s, key);
            if i < p {
                assert(t[i] == s[i]);
            } else {
                assert(t[i + 1] == s[i]);
            }
        }
    }
    assert forall|key: u64| has_key(t, key) implies #[trigger] as_map(t)[key] == as_map(s).insert(
        k,
        v,
    )[key] by {
        if key == k {
            lemma_entry_in_map(t, p);
        } else {
            let i = index_of_key(s, key);
            lemma_entry_in_map(s, i);
            if i < p {
                assert(t[i] == s[i]);
                lemma_entry_in_map(t, i);
            } else {
                assert(t[i + 1] == s[i]);
                lemma_entry_in_map(t, i + 1);
            }
        }
    }
    assert(as_map(t) =~= as_map(s).insert(k, v));
}

/// Changing the value at a position keeps the order and rebinds that key.
pub proof fn lemma_replace<T>(s: Seq<(u64, T)>, p: int, v: T)
    requires
        keys_increasing(s),
        0 <= p < s.len(),
    ensures
        keys_increasing(s.update(p, (s[p].0, v))),
        as_map(s.update(p, (s[p].0, v))) == as_map(s).insert(s[p].0, v),
{
    let k = s[p].0;
    let t = s.update(p, (k, v));
    assert(keys_increasing(t)) by {
        assert forall|i: int, j: int| 0 <= i < j < t.len() implies (#[trigger] t[i]).0 < (
        #[trigger] t[j]).0 by {
            assert(t[i].0 == s[i].0);
            assert(t[j].0 == s[j].0);
        }
    }
    assert forall|key: u64| has_key(t, key) <==> has_key(s, key) by {
        if has_key(t, key) {
            let i = index_of_key(t, key);
            assert(s[i].0 == key);
        }
        if has_key(s, key) {
            let i = index_of_key(s, key);
            assert(t[i].0 == key);
        }
    }
    lemma_entry_in_map(s, p);
    assert forall|key: u64| has_key(t, key) implies #[trigger] as_map(t)[key] == as_map(s).insert(
        k,
        v,
    )[key] by {
        let i = index_of_key(s, key);
        lemma_entry_in_map(s, i);
        assert(t[i].0 == key);
        lemma_entry_in_map(t, i);
    }
    assert(as_map(t) =~= as_map(s).insert(k, v));
}

/// Taking out the entry at a position keeps the order and unbinds that key.
pub proof fn lemma_remove<T>(s: Seq<(u64, T)>, p: int)
    requires
        keys_increasing(s),
        0 <= p < s.len(),
    ensures
        keys_increasing(s.remove(p)),
        as_map(s.remove(p)) == as_map(s).remove(s[p].0),
{
    let k = s[p].0;
    let t = s.remove(p);
    assert(keys_increasing(t)) by {
        assert forall|i: int, j: int| 0 <= i < j < t.len() implies (#[trigger] t[i]).0 < (
        #[trigger] t[j]).0 by {
            let si = if i < p { i } else { i + 1 };
            let sj = if j < p { j } else { j + 1 };
            assert(t[i] == s[si]);
            assert(t[j] == s[sj]);
        }
    }
    assert forall|key: u64| has_key(t, key) <==> (key != k && has_key(s, key)) by {
        if has_key(t, key) {
            let i = index_of_key(t, key);
            let si = if i < p { i } else { i + 1 };
            assert(t[i] == s[si]);
            if si < p {
                assert(s[si].0 < s[p].0);
            } else {
                assert(s[p].0 < s[si].0);
            }
        }
        if key != k && has_key(s, key) {
            let i = index_of_key(s, key);
            if i < p {
                assert(t[i] == s[i]);
            } else {
                assert(t[i - 1] == s[i]);
            }
        }
    }
    assert forall|key: u64| has_key(t, key) implies #[trigger] as_map(t)[key] == as_map(s).remove(
        k,
    )[key] by {
        let i = index_of_key(s, key);
        lemma_entry_in_map(s, i);
        if i < p {
            assert(t[i] == s[i]);
            lemma_entry_in_map(t, i);
        } else {
            assert(t[i - 1] == s[i]);
            lemma_entry_in_map(t, i - 1);
        }
    }
    assert(as_map(t) =~= as_map(s).remove(k));
}

/// A key that lies strictly between two neighbours of the order, or beyond
/// its ends, is not among the keys.
pub proof fn lemma_absent<T>(s: Seq<(u64, T)>, p: int, k: u64)
    requires
        0 <= p <= s.len(),
        forall|i: int| 0 <= i < p ==> (#[trigger] s[i]).0 < k,
        forall|i: int| p <= i < s.len() ==> k < (#[trigger] s[i]).0,
    ensures
        !has_key(s, k),
        !as_map(s).contains_key(k),
{
    if has_key(s, k) {
        let i = index_of_key(s, k);
        assert(s[i].0 == k);
    }
}

/// A sequence with increasing keys describes a finite mapping with as many
/// keys as the sequence has entries.
pub proof fn lemma_map_len<T>(s: Seq<(u64, T)>)
    requires
        keys_increasing(s),
    ensures
        as_map(s).dom().finite(),
        as_map(s).dom().len() == s.len(),
    decreases s.len(),
{
    if s.len() == 0 {
        assert(as_map(s).dom() =~= Set::<u64>::empty());
    } else {
        let last = s.len() - 1;
        let front = s.drop_last();
        lemma_remove(s, last);
        assert(s.remove(last) == front);
        lemma_map_len(front);
        lemma_entry_in_map(s, last);
        assert(as_map(s).dom() =~= as_map(front).dom().insert(s[last].0));
        assert(!as_map(front).dom().contains(s[last].0));
    }
}

/// A map from node identifiers to values of type `T`.
#[derive(Debug, Clone, PartialEq, Eq)]
pub struct IdMap<T> {
    entries: Vec<(u64, T)>,
}

impl<T> View for IdMap<T> {
    type V = Map<u64, T>;

    /// The mapping held.
    open spec fn view(&self) -> Map<u64, T> {
        as_map(self.seq())
    }
}

impl<T> IdMap<T> {
    /// The entries in the order in which they are kept.
    pub closed spec fn seq(&self) -> Seq<(u64, T)> {
        self.entries@
    }

    /// The invariant of the representation: identifiers strictly increase.
    pub open spec fn wf(&self) -> bool {
        keys_increasing(self.seq())
    }

    /// A map without entries.
    pub fn new() -> (m: Self)
        ensures
            m.wf(),
            m.seq() == Seq::<(u64, T)>::empty(),
            m@ == Map::<u64, T>::empty(),
    {
        let m = IdMap { entries: Vec::new() };
        assert(m@ =~= Map::<u64, T>::empty());
        m
    }

    /// The number of entries.
    pub fn len(&self) -> (n: usize)
        ensures
            n == self.seq().len(),
            self.wf() ==> self@.dom().finite() && n == self@.dom().len(),
    {
        proof {
            if self.wf() {
                lemma_map_len(self.seq());
            }
        }
        self.entries.len()
    }

    /// The identifier of the entry at position `i`.
    pub fn key_at(&self, i: usize) -> (k: u64)
        requires
            i < self.seq().len(),
        ensures
            k == self.seq()[i as int].0,
    {
        self.entries[i].0
    }

    /// The value of the entry at position `i`.
    pub fn value_at(&self, i: usize) -> (v: &T)
        requires
            i < self.seq().len(),
        ensures
            *v == self.seq()[i as int].1,
    {
        &self.entries[i].1
    }

    /// The first position whose identifier is not below `id`.
    fn lower_bound(&self, id: u64) -> (p: usize)
        requires
            self.wf(),
        ensures
            p <= self.seq().len(),
            forall|i: int| 0 <= i < p ==> (#[trigger] self.seq()[i]).0 < id,
            forall|i: int| p <= i < self.seq().len() ==> id <= (#[trigger] self.seq()[i]).0,
    {
        let mut lo: usize = 0;
        let mut hi: usize = self.entries.len();
        while lo < hi
            invariant
                self.wf(),
                lo <= hi <= self.seq().len(),
                forall|i: int| 0 <= i < lo ==> (#[trigger] self.seq()[i]).0 < id,
                forall|i: int| hi <= i < self.seq().len() ==> id <= (#[trigger] self.seq()[i]).0,
            decreases hi - lo,
        {
            let mid: usize = lo + (hi - lo) / 2;
            if self.entries[mid].0 < id {
                assert forall|i: int| 0 <= i < mid + 1 implies (#[trigger] self.seq()[i]).0 < id by {
                    if i < mid {
                        assert(self.seq()[i].0 < self.seq()[mid as int].0);
                    }
                }
                lo = mid + 1;
            } else {
                assert forall|i: int| mid <= i < self.seq().len() implies id <= (
                #[trigger] self.seq()[i]).0 by {
                    if mid < i {
                        assert(self.seq()[mid as int].0 < self.seq()[i].0);
                    }
                }
                hi = mid;
            }
        }
        lo
    }

    /// The position of `id` among the entries, if it has one.
    pub fn position(&self, id: u64) -> (r: Option<usize>)
        requires
            self.wf(),
        ensures
            r.is_some() == self@.contains_key(id),
            r matches Some(i) ==> i < self.seq().len() && self.seq()[i as int].0 == id,
    {
        let p: usize = self.lower_bound(id);
        if p < self.entries.len() && self.entries[p].0 == id {
            proof {
                lemma_entry_in_map(self.seq(), p as int);
            }
            Some(p)
        } else {
            proof {
                lemma_absent(self.seq(), p as int, id);
            }
            None
        }
    }

    /// Whether `id` has an entry.
    pub fn contains(&self, id: u64) -> (r: bool)
        requires
            self.wf(),
        ensures
            r == self@.contains_key(id),
    {
        self.position(id).is_some()
    }

    /// The value held for `id`, if there is one.
    pub fn get(&self, id: u64) -> (r: Option<&T>)
        requires
            self.wf(),
        ensures
            r.is_some() == self@.contains_key(id),
            r matches Some(v) ==> *v == self@[id],
    {
        match self.position(id) {
            Some(i) => {
                proof {
                    lemma_entry_in_map(self.seq(), i as int);
                }
                Some(&self.entries[i].1)
            },
            None => None,
        }
    }

    /// Binds `id` to `value` and hands back the value it was bound to before,
    /// if any.
    pub fn insert(&mut self, id: u64, value: T) -> (r: Option<T>)
        requires
            old(self).wf(),
        ensures
            final(self).wf(),
            final(self)@ == old(self)@.insert(id, value),
            r == (if old(self)@.contains_key(id) {
                Some(old(self)@[id])
            } else {
                None
            }),
    {
        let p: usize = self.lower_bound(id);
        if p < self.entries.len() && self.entries[p].0 == id {
            proof {
                lemma_entry_in_map(self.seq(), p as int);
                lemma_replace(self.seq(), p as int, value);
                assert(self.seq().remove(p as int).insert(p as int, (id, value))
                    =~= self.seq().update(p as int, (id, value)));
            }
            let previous = self.entries.remove(p);
            self.entries.insert(p, (id, value));
            Some(previous.1)
        } else {
            proof {
                lemma_absent(self.seq(), p as int, id);
                lemma_insert_new(self.seq(), p as int, id, value);
            }
            self.entries.insert(p, (id, value));
            None
        }
    }

    /// Unbinds `id` and hands back the value it was bound to, if any.
    pub fn remove(&mut self, id: u64) -> (r: Option<T>)
        requires
            old(self).wf(),
        ensures
            final(self).wf(),
            final(self)@ == old(self)@.remove(id),
            r == (if old(self)@.contains_key(id) {
                Some(old(self)@[id])
            } else {
                None
            }),
    {
        let p: usize = self.lower_bound(id);
        if p < self.entries.len() && self.entries[p].0 == id {
            proof {
                lemma_entry_in_map(self.seq(), p as int);
                lemma_remove(self.seq(), p as int);
            }
            let previous = self.entries.remove(p);
            Some(previous.1)
        } else {
            proof {
                lemma_absent(self.seq(), p as int, id);
                assert(self@.remove(id) =~= self@);
            }
            None
        }
    }
}

} // verus!
