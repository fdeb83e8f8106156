//! An insertion-ordered map from strings to strings.
use vstd::prelude::*;

verus! {

/// Key/value pairs of text.
pub type Pairs = Seq<(Seq<char>, Seq<char>)>;

/// The view of a vector of string pairs.
pub open spec fn pairs_view(v: Seq<(String, String)>) -> Pairs {
    v.map_values(|e: (String, String)| (e.0@, e.1@))
}

/// No key occurs twice.
pub open spec fn keys_distinct(m: Pairs) -> bool {
    forall|i: int, j: int| 0 <= i < j < m.len() ==> m[i].0 != m[j].0
}

/// `k` is one of the keys.
pub open spec fn has_key(m: Pairs, k: Seq<char>) -> bool {
    exists|i: int| 0 <= i < m.len() && m[i].0 == k
}

/// The value of the first pair whose key is `k`.
pub open spec fn lookup(m: Pairs, k: Seq<char>) -> Option<Seq<char>>
    decreases m.len(),
{
    if m.len() == 0 {
        None
    } else if m[0].0 == k {
        Some(m[0].1)
    } else {
        lookup(m.drop_first(), k)
    }
}

/// `m` with the value of key `k` set to `v`: the first pair with that key
/// is updated in place; a new key goes at the end.
pub open spec fn map_insert(m: Pairs, k: Seq<char>, v: Seq<char>) -> Pairs
    decreases m.len(),
{
    if m.len() == 0 {
        seq![(k, v)]
    } else if m[0].0 == k {
        m.update(0, (k, v))
    } else {
        seq![m[0]] + map_insert(m.drop_first(), k, v)
    }
}

/// `m` after inserting the pairs of `ps` one after another.
pub open spec fn insert_all(m: Pairs, ps: Pairs) -> Pairs
    decreases ps.len(),
{
    if ps.len() == 0 {
        m
    } else {
        let rest = insert_all(m, ps.drop_last());
        map_insert(rest, ps.last().0, ps.last().1)
    }
}

/// After an insertion the key reads back the inserted value.
pub proof fn lemma_insert_lookup_same(m: Pairs, k: Seq<char>, v: Seq<char>)
    ensures
        lookup(map_insert(m, k, v), k) == Some(v),
    decreases m.len(),
{
    if m.len() > 0 && m[0].0 != k {
        lemma_insert_lookup_same(m.drop_first(), k, v);
        assert((seq![m[0]] + map_insert(m.drop_first(), k, v)).drop_first() =~= map_insert(
            m.drop_first(),
            k,
            v,
        ));
    }
}

/// An insertion leaves the other keys as they were.
pub proof fn lemma_insert_lookup_other(m: Pairs, k: Seq<char>, v: Seq<char>, k2: Seq<char>)
    requires
        k2 != k,
    ensures
        lookup(map_insert(m, k, v), k2) == lookup(m, k2),
    decreases m.len(),
{
    let r = map_insert(m, k, v);
    if m.len() == 0 {
        assert(r[0].0 == k);
        assert(r.drop_first() =~= Seq::<(Seq<char>, Seq<char>)>::empty());
        assert(lookup(r.drop_first(), k2) is None);
    } else {
        if m[0].0 == k {
            assert(r[0].0 == k);
            assert(r.drop_first() =~= m.drop_first());
        } else {
            let rt = map_insert(m.drop_first(), k, v);
            lemma_insert_lookup_other(m.drop_first(), k, v, k2);
            assert(r == seq![m[0]] + rt);
            assert(r[0] == m[0]);
            assert(r.drop_first() =~= rt);
        }
    }
}

/// The keys after an insertion are the old keys and `k`.
pub proof fn lemma_insert_keys(m: Pairs, k: Seq<char>, v: Seq<char>)
    ensures
        forall|k2: Seq<char>| #[trigger]
            has_key(map_insert(m, k, v), k2) <==> (has_key(m, k2) || k2 == k),
        keys_distinct(m) ==> keys_distinct(map_insert(m, k, v)),
    decreases m.len(),
{
    let r = map_insert(m, k, v);
    if m.len() == 0 {
        assert(r[0].0 == k);
    } else if m[0].0 == k {
        assert forall|k2: Seq<char>| has_key(r, k2) <==> (has_key(m, k2) || k2 == k) by {
            if has_key(m, k2) {
                let i = choose|i: int| 0 <= i < m.len() && m[i].0 == k2;
                assert(r[i].0 == k2);
            }
            if has_key(r, k2) {
                let i = choose|i: int| 0 <= i < r.len() && r[i].0 == k2;
                assert(m[i].0 == k2 || i == 0);
            }
            if k2 == k {
                assert(r[0].0 == k);
            }
        }
    } else {
        let t = m.drop_first();
        lemma_insert_keys(t, k, v);
        let rt = map_insert(t, k, v);
        assert(r == seq![m[0]] + rt);
        assert forall|k2: Seq<char>| has_key(r, k2) <==> (has_key(m, k2) || k2 == k) by {
            if has_key(m, k2) {
                let i = choose|i: int| 0 <= i < m.len() && m[i].0 == k2;
                if i == 0 {
                    assert(r[0].0 == k2);
                } else {
                    assert(t[i - 1].0 == k2);
                    assert(has_key(t, k2));
                    assert(has_key(rt, k2));
                    let j = choose|j: int| 0 <= j < rt.len() && rt[j].0 == k2;
                    assert(r[j + 1].0 == k2);
                }
            }
            if k2 == k {
                assert(has_key(rt, k));
                let j = choose|j: int| 0 <= j < rt.len() && rt[j].0 == k2;
                assert(r[j + 1].0 == k2);
            }
            if has_key(r, k2) {
                let i = choose|i: int| 0 <= i < r.len() && r[i].0 == k2;
                if i == 0 {
                    assert(m[0].0 == k2);
                } else {
                    assert(rt[i - 1].0 == k2);
                    assert(has_key(rt, k2));
                    if has_key(t, k2) {
                        let j = choose|j: int| 0 <= j < t.len() && t[j].0 == k2;
                        assert(m[j + 1].0 == k2);
                    }
                }
            }
        }
        if keys_distinct(m) {
            assert(keys_distinct(t));
            assert(!has_key(t, m[0].0));
            assert forall|i: int, j: int| 0 <= i < j < r.len() implies r[i].0 != r[j].0 by {
                if i == 0 {
                    assert(rt[j - 1].0 == r[j].0);
                    if r[j].0 == m[0].0 {
                        assert(has_key(rt, m[0].0));
                    }
                } else {
                    assert(rt[i - 1].0 == r[i].0);
                    assert(rt[j - 1].0 == r[j].0);
                }
            }
        }
    }
}

/// Inserting the pairs of a map with distinct keys into an empty map gives
/// that map back.
pub proof fn lemma_insert_all_into_empty(ps: Pairs)
    requires
        keys_distinct(ps),
    ensures
        insert_all(Seq::empty(), ps) == ps,
    decreases ps.len(),
{
    if ps.len() > 0 {
        let init = ps.drop_last();
        assert(keys_distinct(init));
        lemma_insert_all_into_empty(init);
        lemma_map_insert_new_key(init, ps.last().0, ps.last().1);
        assert(init.push(ps.last()) =~= ps);
    }
}

/// Inserting a key that is not present appends it.
pub proof fn lemma_map_insert_new_key(m: Pairs, k: Seq<char>, v: Seq<char>)
    requires
        forall|i: int| 0 <= i < m.len() ==> m[i].0 != k,
    ensures
        map_insert(m, k, v) == m.push((k, v)),
    decreases m.len(),
{
    if m.len() > 0 {
        let t = m.drop_first();
        assert forall|i: int| 0 <= i < t.len() implies t[i].0 != k by {
            assert(t[i] == m[i + 1]);
        }
        lemma_map_insert_new_key(t, k, v);
        assert(seq![m[0]] + t.push((k, v)) =~= m.push((k, v)));
    }
}

/// Inserting a key whose first position is `i` updates that position.
pub proof fn lemma_map_insert_at(m: Pairs, k: Seq<char>, v: Seq<char>, i: int)
    requires
        0 <= i < m.len(),
        m[i].0 == k,
        forall|j: int| 0 <= j < i ==> m[j].0 != k,
    ensures
        map_insert(m, k, v) == m.update(i, (k, v)),
    decreases m.len(),
{
    if i > 0 {
        let t = m.drop_first();
        assert forall|j: int| 0 <= j < i - 1 implies t[j].0 != k by {
            assert(t[j] == m[j + 1]);
        }
        lemma_map_insert_at(t, k, v, i - 1);
        assert(seq![m[0]] + t.update(i - 1, (k, v)) =~= m.update(i, (k, v)));
    }
}

/// The first value stored under `k`, found by position.
pub proof fn lemma_lookup_at(m: Pairs, k: Seq<char>, i: int)
    requires
        0 <= i < m.len(),
        m[i].0 == k,
        forall|j: int| 0 <= j < i ==> m[j].0 != k,
    ensures
        lookup(m, k) == Some(m[i].1),
    decreases m.len(),
{
    if i > 0 {
        let t = m.drop_first();
        assert forall|j: int| 0 <= j < i - 1 implies t[j].0 != k by {
            assert(t[j] == m[j + 1]);
        }
        lemma_lookup_at(t, k, i - 1);
    }
}

/// A key absent from `m` looks up to nothing.
pub proof fn lemma_lookup_absent(m: Pairs, k: Seq<char>)
    requires
        forall|j: int| 0 <= j < m.len() ==> m[j].0 != k,
    ensures
        lookup(m, k) is None,
    decreases m.len(),
{
    if m.len() > 0 {
        let t = m.drop_first();
        assert forall|j: int| 0 <= j < t.len() implies t[j].0 != k by {
            assert(t[j] == m[j + 1]);
        }
        lemma_lookup_absent(t, k);
    }
}

/// The value of `k` after appending a pair.
pub proof fn lemma_lookup_push(p: Pairs, x: (Seq<char>, Seq<char>), k: Seq<char>)
    ensures
        lookup(p.push(x), k) == if lookup(p, k) is Some {
            lookup(p, k)
        } else if x.0 == k {
            Some(x.1)
        } else {
            None
        },
    decreases p.len(),
{
    if p.len() == 0 {
        assert(p.push(x)[0] == x);
        assert(p.push(x).drop_first() =~= Seq::<(Seq<char>, Seq<char>)>::empty());
        assert(lookup(p.push(x).drop_first(), k) is None);
    } else {
        assert(p.push(x)[0] == p[0]);
        assert(p.push(x).drop_first() =~= p.drop_first().push(x));
        lemma_lookup_push(p.drop_first(), x, k);
    }
}

/// Inserting the pairs of a map with distinct keys: the keys of the pairs
/// read back their values, the other keys their old values.
pub proof fn lemma_insert_all_lookup(m: Pairs, ps: Pairs, k: Seq<char>)
    requires
        keys_distinct(ps),
    ensures
        lookup(insert_all(m, ps), k) == if lookup(ps, k) is Some {
            lookup(ps, k)
        } else {
            lookup(m, k)
        },
    decreases ps.len(),
{
    if ps.len() > 0 {
        let init = ps.drop_last();
        let x = ps.last();
        assert(keys_distinct(init));
        lemma_insert_all_lookup(m, init, k);
        assert(init.push(x) =~= ps);
        lemma_lookup_push(init, x, k);
        if x.0 == k {
            lemma_insert_lookup_same(insert_all(m, init), x.0, x.1);
            if lookup(init, k) is Some {
                assert forall|j: int| 0 <= j < init.len() implies init[j].0 != k by {
                    assert(init[j] == ps[j]);
                    assert(ps[ps.len() - 1] == x);
                }
                lemma_lookup_absent(init, k);
            }
        } else {
            lemma_insert_lookup_other(insert_all(m, init), x.0, x.1, k);
        }
    }
}

/// A map from strings to strings that remembers the order in which keys
/// were first inserted.
pub struct StringMap {
    entries: Vec<(String, String)>,
}

impl View for StringMap {
    type V = Pairs;

    closed spec fn view(&self) -> Pairs {
        pairs_view(self.entries@)
    }
}

impl StringMap {
    /// No key occurs twice.
    #[verifier::type_invariant]
    pub open spec fn wf(self) -> bool {
        keys_distinct(self@)
    }

    /// The empty map.
    pub fn new() -> (m: StringMap)
        ensures
            m@ == Seq::<(Seq<char>, Seq<char>)>::empty(),
            keys_distinct(m@),
    {
        let m = StringMap { entries: Vec::new() };
        assert(m@ =~= Seq::<(Seq<char>, Seq<char>)>::empty());
        m
    }

    /// The number of keys.
    pub fn len(&self) -> (n: usize)
        ensures
            n == self@.len(),
    {
        self.entries.len()
    }

    /// The key at position `i`.
    pub fn key_at(&self, i: usize) -> (k: &String)
        requires
            i < self@.len(),
        ensures
            k@ == self@[i as int].0,
    {
        &self.entries[i].0
    }

    /// The value at position `i`.
    pub fn value_at(&self, i: usize) -> (v: &String)
        requires
            i < self@.len(),
        ensures
            v@ == self@[i as int].1,
    {
        &self.entries[i].1
    }

    /// The position of key `k`, if it is present.
    fn position(&self, k: &String) -> (res: Option<usize>)
        ensures
            match res {
                Some(i) => i < self@.len() && self@[i as int].0 == k@ && forall|j: int|
                    0 <= j < i ==> self@[j].0 != k@,
                None => forall|j: int| 0 <= j < self@.len() ==> self@[j].0 != k@,
            },
    {
        let n = self.entries.len();
        for i in 0..n
            invariant
                n == self@.len(),
                forall|j: int| 0 <= j < i ==> self@[j].0 != k@,
        {
            if self.entries[i].0 == *k {
                return Some(i);
            }
        }
        None
    }

    /// The value stored under `k`.
    pub fn get(&self, k: &String) -> (res: Option<&String>)
        ensures
            match res {
                Some(v) => lookup(self@, k@) == Some(v@),
                None => lookup(self@, k@) is None,
            },
    {
        match self.position(k) {
            Some(i) => {
                proof {
                    lemma_lookup_at(self@, k@, i as int);
                }
                Some(&self.entries[i].1)
            },
            None => {
                proof {
                    lemma_lookup_absent(self@, k@);
                }
                None
            },
        }
    }

    /// Whether `k` is a key.
    pub fn contains_key(&self, k: &String) -> (res: bool)
        ensures
            res == (lookup(self@, k@) is Some),
    {
        self.get(k).is_some()
    }

    /// Sets the value of `k` to `v`; the keys stay distinct.
    pub fn insert(&mut self, k: String, v: String)
        ensures
            final(self)@ == map_insert(old(self)@, k@, v@),
            keys_distinct(final(self)@),
    {
        proof {
            use_type_invariant(&*self);
            lemma_insert_keys(self@, k@, v@);
        }
        let pos = self.position(&k);
        let ghost before = self@;
        let mut e: Vec<(String, String)> = Vec::new();
        std::mem::swap(&mut e, &mut self.entries);
        assert(pairs_view(e@) == before);
        let ghost kv = k@;
        let ghost vv = v@;
        match pos {
            Some(i) => {
                proof {
                    lemma_map_insert_at(before, kv, vv, i as int);
                }
                e.set(i, (k, v));
                assert(pairs_view(e@) =~= before.update(i as int, (kv, vv)));
            },
            None => {
                proof {
                    lemma_map_insert_new_key(before, kv, vv);
                }
                e.push((k, v));
                assert(pairs_view(e@) =~= before.push((kv, vv)));
            },
        }
        self.entries = e;
    }

    /// Inserts every pair of `other`, in its order.
    pub fn insert_all_from(&mut self, other: &StringMap)
        ensures
            final(self)@ == insert_all(old(self)@, other@),
            keys_distinct(final(self)@),
            forall|k: Seq<char>|
                #![trigger lookup(final(self)@, k)]
                lookup(final(self)@, k) == if lookup(other@, k) is Some {
                    lookup(other@, k)
                } else {
                    lookup(old(self)@, k)
                },
    {
        proof {
            use_type_invariant(other);
            assert forall|k: Seq<char>| #[trigger]
                lookup(insert_all(old(self)@, other@), k) == if lookup(other@, k) is Some {
                    lookup(other@, k)
                } else {
                    lookup(old(self)@, k)
                } by {
                lemma_insert_all_lookup(old(self)@, other@, k);
            }
        }
        let n = other.len();
        for i in 0..n
            invariant
                n == other@.len(),
                self@ == insert_all(old(self)@, other@.take(i as int)),
        {
            let k = other.key_at(i).clone();
            let v = other.value_at(i).clone();
            self.insert(k, v);
            assert(other@.take(i + 1).drop_last() =~= other@.take(i as int));
        }
        proof {
            use_type_invariant(&*self);
        }
        assert(other@.take(n as int) =~= other@);
    }
}

} // verus!
