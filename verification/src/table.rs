//! A map keyed by text, used for the facts that are grouped by name.
//!
//! Its entries keep the order in which their keys were first inserted, and no
//! key occurs twice; inserting a key that is present replaces its value, as
//! `HashMap::insert` does.
use vstd::prelude::*;

verus! {

/// The map that a sequence of key/value pairs gives when they are inserted in
/// order: a later pair replaces an earlier one with the same key.
pub open spec fn map_of_pairs<V>(p: Seq<(Seq<char>, V)>) -> Map<Seq<char>, V>
    decreases p.len(),
{
    if p.len() == 0 {
        Map::empty()
    } else {
        map_of_pairs(p.drop_last()).insert(p.last().0, p.last().1)
    }
}

/// Whether no key occurs twice in `p`.
pub open spec fn keys_distinct<V>(p: Seq<(Seq<char>, V)>) -> bool {
    forall|i: int, j: int| 0 <= i < j < p.len() ==> p[i].0 != p[j].0
}

pub proof fn lemma_map_of_pairs_dom<V>(p: Seq<(Seq<char>, V)>)
    ensures
        map_of_pairs(p).dom().finite(),
        forall|k: Seq<char>| #[trigger]
            map_of_pairs(p).contains_key(k) <==> exists|i: int| 0 <= i < p.len() && p[i].0 == k,
    decreases p.len(),
{
    if p.len() > 0 {
        let q = p.drop_last();
        lemma_map_of_pairs_dom(q);
        assert forall|k: Seq<char>| #[trigger]
            map_of_pairs(p).contains_key(k) <==> exists|i: int| 0 <= i < p.len() && p[i].0 == k by {
            if map_of_pairs(p).contains_key(k) {
                if k == p.last().0 {
                    assert(p[p.len() - 1].0 == k);
                } else {
                    let i = choose|i: int| 0 <= i < q.len() && q[i].0 == k;
                    assert(p[i].0 == k);
                }
            }
            if exists|i: int| 0 <= i < p.len() && p[i].0 == k {
                let i = choose|i: int| 0 <= i < p.len() && p[i].0 == k;
                if i < p.len() - 1 {
                    assert(q[i].0 == k);
                }
            }
        }
    }
}

/// With distinct keys, the value of each key is that of its pair.
pub proof fn lemma_map_of_pairs_value<V>(p: Seq<(Seq<char>, V)>, i: int)
    requires
        keys_distinct(p),
        0 <= i < p.len(),
    ensures
        map_of_pairs(p).contains_key(p[i].0),
        map_of_pairs(p)[p[i].0] == p[i].1,
    decreases p.len(),
{
    if i < p.len() - 1 {
        let q = p.drop_last();
        assert(q[i] == p[i]);
        lemma_map_of_pairs_value(q, i);
    }
}

/// The value of a key is that of the last pair with that key.
pub proof fn lemma_map_of_pairs_last<V>(p: Seq<(Seq<char>, V)>, i: int)
    requires
        0 <= i < p.len(),
        forall|j: int| i < j < p.len() ==> #[trigger] p[j].0 != p[i].0,
    ensures
        map_of_pairs(p).contains_key(p[i].0),
        map_of_pairs(p)[p[i].0] == p[i].1,
    decreases p.len(),
{
    if i < p.len() - 1 {
        let q = p.drop_last();
        assert(q[i] == p[i]);
        assert(p[p.len() - 1].0 != p[i].0);
        assert forall|j: int| i < j < q.len() implies #[trigger] q[j].0 != q[i].0 by {
            assert(q[j] == p[j]);
        }
        lemma_map_of_pairs_last(q, i);
    }
}

/// Each value of the map is that of a pair with its key.
pub proof fn lemma_map_of_pairs_from_pair<V>(p: Seq<(Seq<char>, V)>, k: Seq<char>)
    requires
        map_of_pairs(p).contains_key(k),
    ensures
        exists|i: int| 0 <= i < p.len() && p[i].0 == k && p[i].1 == map_of_pairs(p)[k],
    decreases p.len(),
{
    let q = p.drop_last();
    if p.last().0 == k {
        assert(p[p.len() - 1].0 == k);
    } else {
        lemma_map_of_pairs_from_pair(q, k);
        let i = choose|i: int| 0 <= i < q.len() && q[i].0 == k && q[i].1 == map_of_pairs(q)[k];
        assert(p[i] == q[i]);
    }
}

/// With distinct keys, the map has one key per pair.
pub proof fn lemma_map_of_pairs_len<V>(p: Seq<(Seq<char>, V)>)
    requires
        keys_distinct(p),
    ensures
        map_of_pairs(p).len() == p.len(),
    decreases p.len(),
{
    if p.len() > 0 {
        let q = p.drop_last();
        lemma_map_of_pairs_len(q);
        lemma_map_of_pairs_dom(q);
        assert(!map_of_pairs(q).contains_key(p.last().0)) by {
            if map_of_pairs(q).contains_key(p.last().0) {
                let i = choose|i: int| 0 <= i < q.len() && q[i].0 == p.last().0;
                assert(p[i].0 == p[p.len() - 1].0);
            }
        }
        assert(map_of_pairs(p).dom() == map_of_pairs(q).dom().insert(p.last().0));
    }
}

/// Replacing the value of a present key (keys distinct) is an insertion into the map.
pub proof fn lemma_map_of_pairs_update<V>(p: Seq<(Seq<char>, V)>, i: int, v: V)
    requires
        keys_distinct(p),
        0 <= i < p.len(),
    ensures
        map_of_pairs(p.update(i, (p[i].0, v))) == map_of_pairs(p).insert(p[i].0, v),
    decreases p.len(),
{
    let k = p[i].0;
    let p2 = p.update(i, (k, v));
    if i == p.len() - 1 {
        assert(p2.drop_last() =~= p.drop_last());
        assert(map_of_pairs(p2) =~= map_of_pairs(p).insert(k, v));
    } else {
        let q = p.drop_last();
        assert(q[i] == p[i]);
        lemma_map_of_pairs_update(q, i, v);
        assert(p2.drop_last() =~= q.update(i, (k, v)));
        assert(p.last().0 != k);
        assert(map_of_pairs(p2) =~= map_of_pairs(p).insert(k, v));
    }
}

/// Mapping the values of the pairs maps the values of their map.
pub proof fn lemma_map_of_pairs_map_values<V, W>(p: Seq<(Seq<char>, V)>, f: spec_fn(V) -> W)
    ensures
        map_of_pairs(p).map_values(f) == map_of_pairs(
            p.map_values(|e: (Seq<char>, V)| (e.0, f(e.1))),
        ),
    decreases p.len(),
{
    let g = |e: (Seq<char>, V)| (e.0, f(e.1));
    if p.len() > 0 {
        lemma_map_of_pairs_map_values(p.drop_last(), f);
        assert(p.map_values(g).drop_last() =~= p.drop_last().map_values(g));
        assert(map_of_pairs(p).map_values(f) =~= map_of_pairs(p.map_values(g)));
    } else {
        assert(p.map_values(g) =~= Seq::<(Seq<char>, W)>::empty());
        assert(map_of_pairs(p).map_values(f) =~= map_of_pairs(p.map_values(g)));
    }
}

/// A map from text keys to values; see the module documentation.
pub struct TextMap<V> {
    entries: Vec<(String, V)>,
}

impl<V> TextMap<V> {
    /// The entries, with each key taken by its characters.
    pub closed spec fn pairs(&self) -> Seq<(Seq<char>, V)> {
        self.entries@.map_values(|e: (String, V)| (e.0@, e.1))
    }

    #[verifier::type_invariant]
    closed spec fn keys_are_distinct(&self) -> bool {
        keys_distinct(self.pairs())
    }

    /// An empty map.
    pub fn new() -> (r: Self)
        ensures
            r@ == Map::<Seq<char>, V>::empty(),
            r.pairs() == Seq::<(Seq<char>, V)>::empty(),
    {
        let r = TextMap { entries: Vec::new() };
        assert(r.pairs() =~= Seq::<(Seq<char>, V)>::empty());
        r
    }

    /// The position of the entry whose key is `k`, if any.
    fn position(&self, k: &String) -> (r: Option<usize>)
        ensures
            match r {
                Some(i) => i < self.pairs().len() && self.pairs()[i as int].0 == k@,
                None => forall|i: int| 0 <= i < self.pairs().len() ==> self.pairs()[i].0 != k@,
            },
    {
        let mut i: usize = 0;
        while i < self.entries.len()
            invariant
                i <= self.entries@.len(),
                self.pairs().len() == self.entries@.len(),
                forall|j: int| 0 <= j < i ==> self.pairs()[j].0 != k@,
            decreases self.entries.len() - i,
        {
            if self.entries[i].0 == *k {
                return Some(i);
            }
            i = i + 1;
        }
        None
    }

    /// Inserts `v` under `k`, replacing the value that `k` had.
    pub fn insert(&mut self, k: String, v: V)
        ensures
            final(self)@ == old(self)@.insert(k@, v),
    {
        proof {
            use_type_invariant(&*self);
        }
        let ghost p = self.pairs();
        let pos = self.position(&k);
        let mut e: Vec<(String, V)> = Vec::new();
        std::mem::swap(&mut e, &mut self.entries);
        let ghost k_view = k@;
        match pos {
            Some(i) => {
                e.remove(i);
                e.insert(i, (k, v));
                proof {
                    lemma_map_of_pairs_update(p, i as int, v);
                    assert(e@.map_values(|x: (String, V)| (x.0@, x.1)) =~= p.update(
                        i as int,
                        (k_view, v),
                    ));
                }
            },
            None => {
                e.push((k, v));
                proof {
                    assert(e@.map_values(|x: (String, V)| (x.0@, x.1)) =~= p.push((k_view, v)));
                    assert(p.push((k_view, v)).drop_last() =~= p);
                }
            },
        }
        self.entries = e;
    }

    /// The value stored under `k`, if any.
    pub fn get(&self, k: &str) -> (r: Option<&V>)
        ensures
            match r {
                Some(v) => self@.contains_key(k@) && *v == self@[k@],
                None => !self@.contains_key(k@),
            },
    {
        proof {
            use_type_invariant(self);
            lemma_map_of_pairs_dom(self.pairs());
        }
        let key = k.to_owned();
        match self.position(&key) {
            Some(i) => {
                proof {
                    lemma_map_of_pairs_value(self.pairs(), i as int);
                }
                Some(&self.entries[i].1)
            },
            None => None,
        }
    }

    /// The number of keys.
    pub fn len(&self) -> (r: usize)
        ensures
            r == self@.len(),
    {
        proof {
            use_type_invariant(self);
            lemma_map_of_pairs_len(self.pairs());
        }
        self.entries.len()
    }

    /// The entries, in the order in which their keys were first inserted.
    pub fn entries(&self) -> (r: &[(String, V)])
        ensures
            r@.map_values(|e: (String, V)| (e.0@, e.1)) == self.pairs(),
            keys_distinct(self.pairs()),
            map_of_pairs(self.pairs()) == self@,
    {
        proof {
            use_type_invariant(self);
        }
        self.entries.as_slice()
    }
}

impl<V> View for TextMap<V> {
    type V = Map<Seq<char>, V>;

    open spec fn view(&self) -> Map<Seq<char>, V> {
        map_of_pairs(self.pairs())
    }
}

} // verus!
