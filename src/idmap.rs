use vstd::prelude::*;

verus! {

/// A map keyed by proposal ids, kept as a list of entries with distinct keys.
pub struct IdMap<V> {
    entries: Vec<(u32, V)>,
}

pub open spec fn id_keys_distinct<V>(s: Seq<(u32, V)>) -> bool {
    forall|i: int, j: int| 0 <= i < s.len() && 0 <= j < s.len() && i != j ==> s[i].0 != s[j].0
}

pub open spec fn id_to_map<V>(s: Seq<(u32, V)>) -> Map<u32, V>
    decreases s.len(),
{
    if s.len() == 0 {
        Map::empty()
    } else {
        id_to_map(s.drop_last()).insert(s.last().0, s.last().1)
    }
}

/// Sum of `f` over the values of the entries.
pub open spec fn id_sum_values<V>(s: Seq<(u32, V)>, f: spec_fn(V) -> int) -> int
    decreases s.len(),
{
    if s.len() == 0 {
        0
    } else {
        id_sum_values(s.drop_last(), f) + f(s.last().1)
    }
}

proof fn id_lemma_to_map_contains<V>(s: Seq<(u32, V)>, k: u32)
    ensures
        id_to_map(s).contains_key(k) <==> exists|i: int| 0 <= i < s.len() && s[i].0 == k,
    decreases s.len(),
{
    if s.len() > 0 {
        id_lemma_to_map_contains(s.drop_last(), k);
        if id_to_map(s.drop_last()).contains_key(k) {
            let i = choose|i: int| 0 <= i < s.drop_last().len() && s.drop_last()[i].0 == k;
            assert(s[i].0 == k);
        }
        if exists|i: int| 0 <= i < s.len() && s[i].0 == k {
            let i = choose|i: int| 0 <= i < s.len() && s[i].0 == k;
            if i < s.len() - 1 {
                assert(s.drop_last()[i].0 == k);
            }
        }
    }
}

proof fn id_lemma_to_map_value<V>(s: Seq<(u32, V)>, i: int)
    requires
        id_keys_distinct(s),
        0 <= i < s.len(),
    ensures
        id_to_map(s).contains_key(s[i].0),
        id_to_map(s)[s[i].0] == s[i].1,
    decreases s.len(),
{
    if i < s.len() - 1 {
        id_lemma_to_map_value(s.drop_last(), i);
    }
}

proof fn id_lemma_to_map_remove<V>(s: Seq<(u32, V)>, i: int)
    requires
        id_keys_distinct(s),
        0 <= i < s.len(),
    ensures
        id_to_map(s.remove(i)) =~= id_to_map(s).remove(s[i].0),
        id_sum_values(s.remove(i), |v: V| 0int) == 0,
    decreases s.len(),
{
    let k = s[i].0;
    if i == s.len() - 1 {
        assert(s.remove(i) =~= s.drop_last());
        id_lemma_to_map_contains(s.drop_last(), k);
    } else {
        let t = s.drop_last();
        assert(s.remove(i).drop_last() =~= t.remove(i));
        assert(s.remove(i).last() == s.last());
        id_lemma_to_map_remove(t, i);
    }
    id_lemma_sum_zero(s.remove(i));
}

proof fn id_lemma_sum_zero<V>(s: Seq<(u32, V)>)
    ensures
        id_sum_values(s, |v: V| 0int) == 0,
    decreases s.len(),
{
    if s.len() > 0 {
        id_lemma_sum_zero(s.drop_last());
    }
}

proof fn id_lemma_sum_remove<V>(s: Seq<(u32, V)>, i: int, f: spec_fn(V) -> int)
    requires
        0 <= i < s.len(),
    ensures
        id_sum_values(s.remove(i), f) == id_sum_values(s, f) - f(s[i].1),
    decreases s.len(),
{
    if i == s.len() - 1 {
        assert(s.remove(i) =~= s.drop_last());
    } else {
        let t = s.drop_last();
        assert(s.remove(i).drop_last() =~= t.remove(i));
        assert(s.remove(i).last() == s.last());
        id_lemma_sum_remove(t, i, f);
    }
}

proof fn id_lemma_sum_update<V>(s: Seq<(u32, V)>, i: int, e: (u32, V), f: spec_fn(V) -> int)
    requires
        0 <= i < s.len(),
    ensures
        id_sum_values(s.update(i, e), f) == id_sum_values(s, f) - f(s[i].1) + f(e.1),
    decreases s.len(),
{
    if i == s.len() - 1 {
        assert(s.update(i, e).drop_last() =~= s.drop_last());
    } else {
        let t = s.drop_last();
        assert(s.update(i, e).drop_last() =~= t.update(i, e));
        id_lemma_sum_update(t, i, e, f);
    }
}

proof fn id_lemma_to_map_update<V>(s: Seq<(u32, V)>, i: int, e: (u32, V))
    requires
        id_keys_distinct(s),
        0 <= i < s.len(),
        e.0 == s[i].0,
    ensures
        id_to_map(s.update(i, e)) =~= id_to_map(s).insert(e.0, e.1),
        id_keys_distinct(s.update(i, e)),
    decreases s.len(),
{
    let k = e.0;
    if i == s.len() - 1 {
        assert(s.update(i, e).drop_last() =~= s.drop_last());
    } else {
        let t = s.drop_last();
        assert(s.update(i, e).drop_last() =~= t.update(i, e));
        id_lemma_to_map_update(t, i, e);
    }
}

impl<V> View for IdMap<V> {
    type V = Map<u32, V>;

    closed spec fn view(&self) -> Map<u32, V> {
        id_to_map(self.entries@)
    }
}

impl<V> IdMap<V> {
    pub closed spec fn wf(&self) -> bool {
        id_keys_distinct(self.entries@)
    }

    /// Sum of `f` over the values.
    pub closed spec fn sum(&self, f: spec_fn(V) -> int) -> int {
        id_sum_values(self.entries@, f)
    }

    /// The key of the entry at `i`, in the order the entries are kept.
    pub closed spec fn key_at(&self, i: int) -> u32 {
        self.entries@[i].0
    }

    /// The value of the entry at `i`.
    pub closed spec fn value_at(&self, i: int) -> V {
        self.entries@[i].1
    }

    pub closed spec fn len_spec(&self) -> nat {
        self.entries@.len()
    }

    /// The map formed by the first `n` entries.
    pub closed spec fn prefix_view(&self, n: int) -> Map<u32, V> {
        id_to_map(self.entries@.subrange(0, n))
    }

    pub proof fn lemma_prefix(&self, n: int)
        requires
            self.wf(),
            0 <= n < self.len_spec(),
        ensures
            self.prefix_view(n + 1) == self.prefix_view(n).insert(self.key_at(n), self.value_at(n)),
            !self.prefix_view(n).contains_key(self.key_at(n)),
    {
        let s = self.entries@;
        assert(s.subrange(0, n + 1).drop_last() =~= s.subrange(0, n));
        id_lemma_to_map_contains(s.subrange(0, n), s[n].0);
        if self.prefix_view(n).contains_key(self.key_at(n)) {
            let j = choose|j: int| 0 <= j < s.subrange(0, n).len() && s.subrange(0, n)[j].0 == s[n].0;
            assert(s[j].0 == s[n].0);
        }
    }

    pub proof fn lemma_prefix_ends(&self)
        ensures
            self.prefix_view(0) == Map::<u32, V>::empty(),
            self.prefix_view(self.len_spec() as int) == self@,
    {
        assert(self.entries@.subrange(0, 0).len() == 0);
        assert(self.entries@.subrange(0, self.len_spec() as int) =~= self.entries@);
    }

    pub proof fn lemma_keys(&self)
        requires
            self.wf(),
        ensures
            forall|i: int| 0 <= i < self.len_spec() ==> self@.contains_key(#[trigger] self.key_at(i)),
            forall|k: u32| self@.contains_key(k) ==> exists|i: int| 0 <= i < self.len_spec() && self.key_at(i) == k,
            self.len_spec() == 0 <==> self@ == Map::<u32, V>::empty(),
    {
        assert forall|i: int| 0 <= i < self.len_spec() implies self@.contains_key(#[trigger] self.key_at(i)) by {
            id_lemma_to_map_value(self.entries@, i);
        }
        assert forall|k: u32| self@.contains_key(k) implies exists|i: int| 0 <= i < self.len_spec() && self.key_at(i) == k by {
            id_lemma_to_map_contains(self.entries@, k);
            let i = choose|i: int| 0 <= i < self.entries@.len() && self.entries@[i].0 == k;
            assert(self.key_at(i) == k);
        }
        if self.len_spec() != 0 {
            id_lemma_to_map_value(self.entries@, 0);
            assert(self@.contains_key(self.key_at(0)));
        } else {
            assert(self@ =~= Map::<u32, V>::empty());
        }
    }

    pub fn new() -> (r: Self)
        ensures
            r.wf(),
            r@ == Map::<u32, V>::empty(),
            forall|f: spec_fn(V) -> int| r.sum(f) == 0,
            r.len_spec() == 0,
    {
        let r = IdMap { entries: Vec::new() };
        assert(r@ =~= Map::<u32, V>::empty());
        r
    }

    pub fn len(&self) -> (r: usize)
        ensures
            r == self.len_spec(),
    {
        self.entries.len()
    }

    pub fn is_empty(&self) -> (r: bool)
        requires
            self.wf(),
        ensures
            r <==> self@ == Map::<u32, V>::empty(),
    {
        proof {
            self.lemma_keys();
        }
        self.entries.len() == 0
    }

    fn index_of(&self, key: u32) -> (r: Option<usize>)
        requires
            self.wf(),
        ensures
            match r {
                Some(i) => i < self.entries@.len() && self.entries@[i as int].0 == key,
                None => !self@.contains_key(key),
            },
    {
        let mut i: usize = 0;
        while i < self.entries.len()
            invariant
                i <= self.entries@.len(),
                forall|j: int| 0 <= j < i ==> self.entries@[j].0 != key,
            decreases self.entries@.len() - i,
        {
            if self.entries[i].0 == key {
                return Some(i);
            }
            i = i + 1;
        }
        proof {
            id_lemma_to_map_contains(self.entries@, key);
        }
        None
    }

    pub fn contains_key(&self, key: u32) -> (r: bool)
        requires
            self.wf(),
        ensures
            r == self@.contains_key(key),
    {
        match self.index_of(key) {
            Some(i) => {
                proof {
                    id_lemma_to_map_value(self.entries@, i as int);
                }
                true
            },
            None => false,
        }
    }

    pub fn get(&self, key: u32) -> (r: Option<&V>)
        requires
            self.wf(),
        ensures
            match r {
                Some(v) => self@.contains_key(key) && self@[key] == *v,
                None => !self@.contains_key(key),
            },
    {
        match self.index_of(key) {
            Some(i) => {
                proof {
                    id_lemma_to_map_value(self.entries@, i as int);
                }
                Some(&self.entries[i].1)
            },
            None => None,
        }
    }

    /// The key and value of the entry at `i`.
    pub fn entry_at(&self, i: usize) -> (r: (u32, &V))
        requires
            self.wf(),
            i < self.len_spec(),
        ensures
            r.0 == self.key_at(i as int),
            *r.1 == self.value_at(i as int),
            self@.contains_key(r.0),
            self@[r.0] == *r.1,
    {
        proof {
            id_lemma_to_map_value(self.entries@, i as int);
        }
        (self.entries[i].0, &self.entries[i].1)
    }

    /// Sets `key` to `value`.
    pub fn insert(&mut self, key: u32, value: V)
        requires
            old(self).wf(),
        ensures
            final(self).wf(),
            final(self)@ == old(self)@.insert(key, value),
            forall|f: spec_fn(V) -> int| #[trigger] final(self).sum(f) == old(self).sum(f) + f(value) - (
                if old(self)@.contains_key(key) { f(old(self)@[key]) } else { 0 }),
    {
        match self.index_of(key) {
            Some(i) => {
                let ghost s = self.entries@;
                proof {
                    id_lemma_to_map_value(s, i as int);
                    id_lemma_to_map_update(s, i as int, (key, value));
                }
                self.entries.set(i, (key, value));
                proof {
                    assert forall|f: spec_fn(V) -> int| #[trigger] id_sum_values(self.entries@, f) == id_sum_values(s, f) + f(value) - f(s[i as int].1) by {
                        id_lemma_sum_update(s, i as int, (key, value), f);
                    }
                }
            },
            None => {
                let ghost s = self.entries@;
                self.entries.push((key, value));
                proof {
                    assert(self.entries@.drop_last() =~= s);
                    id_lemma_to_map_contains(s, key);
                    assert forall|f: spec_fn(V) -> int| #[trigger] id_sum_values(self.entries@, f) == id_sum_values(s, f) + f(value) by {
                        assert(self.entries@.drop_last() =~= s);
                    }
                }
            },
        }
    }

    /// Removes `key`, returning its value.
    pub fn remove(&mut self, key: u32) -> (r: Option<V>)
        requires
            old(self).wf(),
        ensures
            final(self).wf(),
            final(self)@ == old(self)@.remove(key),
            match r {
                Some(v) => old(self)@.contains_key(key) && old(self)@[key] == v,
                None => !old(self)@.contains_key(key),
            },
            forall|f: spec_fn(V) -> int| #[trigger] final(self).sum(f) == old(self).sum(f) - (
                if old(self)@.contains_key(key) { f(old(self)@[key]) } else { 0 }),
    {
        match self.index_of(key) {
            Some(i) => {
                let ghost s = self.entries@;
                proof {
                    id_lemma_to_map_value(s, i as int);
                    id_lemma_to_map_remove(s, i as int);
                }
                let (_, v) = self.entries.remove(i);
                proof {
                    assert forall|a: int, b: int| 0 <= a < self.entries@.len() && 0 <= b < self.entries@.len() && a != b
                        implies self.entries@[a].0 != self.entries@[b].0 by {
                        let a2 = if a < i { a } else { a + 1 };
                        let b2 = if b < i { b } else { b + 1 };
                        assert(self.entries@[a] == s[a2]);
                        assert(self.entries@[b] == s[b2]);
                    }
                    assert forall|f: spec_fn(V) -> int| #[trigger] id_sum_values(self.entries@, f) == id_sum_values(s, f) - f(s[i as int].1) by {
                        id_lemma_sum_remove(s, i as int, f);
                    }
                }
                Some(v)
            },
            None => {
                proof {
                    assert(self@ =~= self@.remove(key));
                }
                None
            },
        }
    }
}

impl<V: Copy> IdMap<V> {
    /// The entries, in the order they are kept.
    pub fn to_vec(&self) -> (r: Vec<(u32, V)>)
        requires
            self.wf(),
        ensures
            r@.len() == self.len_spec(),
            forall|i: int| 0 <= i < r@.len() ==> (#[trigger] r@[i]).0 == self.key_at(i) && r@[i].1 == self.value_at(i)
                && self@.contains_key(r@[i].0) && self@[r@[i].0] == r@[i].1,
    {
        let mut r: Vec<(u32, V)> = Vec::new();
        let mut i: usize = 0;
        while i < self.len()
            invariant
                self.wf(),
                i <= self.len_spec(),
                r@.len() == i,
                forall|j: int| 0 <= j < i ==> (#[trigger] r@[j]).0 == self.key_at(j) && r@[j].1 == self.value_at(j)
                    && self@.contains_key(r@[j].0) && self@[r@[j].0] == r@[j].1,
            decreases self.len_spec() - i,
        {
            let (k, v) = self.entry_at(i);
            r.push((k, *v));
            i = i + 1;
        }
        r
    }
}

} // verus!
