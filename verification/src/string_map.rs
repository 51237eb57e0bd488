//! A small map from strings to strings that remembers insertion order.

use vstd::prelude::*;

verus! {

/// The map denoted by a list of key/value pairs: later pairs win.
pub open spec fn pairs_to_map(ps: Seq<(Seq<char>, Seq<char>)>) -> Map<Seq<char>, Seq<char>>
    decreases ps.len(),
{
    if ps.len() == 0 {
        Map::empty()
    } else {
        pairs_to_map(ps.drop_last()).insert(ps.last().0, ps.last().1)
    }
}

/// No key occurs twice.
pub open spec fn keys_distinct(ps: Seq<(Seq<char>, Seq<char>)>) -> bool {
    forall|i: int, j: int| 0 <= i < ps.len() && 0 <= j < ps.len() && i != j ==> ps[i].0 != ps[j].0
}

/// Key/value pairs in the order in which their keys were first inserted;
/// no key occurs twice.
#[derive(Debug)]
pub struct StringMap {
    entries: Vec<(String, String)>,
}

pub open spec fn entry_view(e: (String, String)) -> (Seq<char>, Seq<char>) {
    (e.0@, e.1@)
}

impl StringMap {
    /// The pairs, in insertion order.
    pub closed spec fn pairs(&self) -> Seq<(Seq<char>, Seq<char>)> {
        self.entries@.map_values(|e: (String, String)| entry_view(e))
    }

    #[verifier::type_invariant]
    spec fn well_formed(&self) -> bool {
        keys_distinct(self.pairs())
    }
}

impl View for StringMap {
    type V = Map<Seq<char>, Seq<char>>;

    open spec fn view(&self) -> Map<Seq<char>, Seq<char>> {
        pairs_to_map(self.pairs())
    }
}

/// Membership and lookup in a map built from distinct pairs.
pub proof fn lemma_pairs_to_map_lookup(ps: Seq<(Seq<char>, Seq<char>)>, k: Seq<char>)
    requires
        keys_distinct(ps),
    ensures
        pairs_to_map(ps).contains_key(k) <==> exists|i: int| 0 <= i < ps.len() && ps[i].0 == k,
        forall|i: int| 0 <= i < ps.len() && ps[i].0 == k ==> pairs_to_map(ps)[k] == ps[i].1,
    decreases ps.len(),
{
    if ps.len() > 0 {
        let init = ps.drop_last();
        assert(keys_distinct(init));
        lemma_pairs_to_map_lookup(init, k);
        if ps.last().0 != k {
            if pairs_to_map(init).contains_key(k) {
                let i = choose|i: int| 0 <= i < init.len() && init[i].0 == k;
                assert(ps[i].0 == k);
            }
            if exists|i: int| 0 <= i < ps.len() && ps[i].0 == k {
                let i = choose|i: int| 0 <= i < ps.len() && ps[i].0 == k;
                assert(init[i].0 == k);
            }
        } else {
            assert(ps[ps.len() - 1].0 == k);
        }
    }
}

/// Replacing the value of an existing key in distinct pairs updates that key.
pub proof fn lemma_pairs_to_map_update(
    ps: Seq<(Seq<char>, Seq<char>)>,
    i: int,
    v: Seq<char>,
)
    requires
        keys_distinct(ps),
        0 <= i < ps.len(),
    ensures
        keys_distinct(ps.update(i, (ps[i].0, v))),
        pairs_to_map(ps.update(i, (ps[i].0, v))) == pairs_to_map(ps).insert(ps[i].0, v),
    decreases ps.len(),
{
    let qs = ps.update(i, (ps[i].0, v));
    assert(keys_distinct(qs)) by {
        assert forall|a: int, b: int|
            0 <= a < qs.len() && 0 <= b < qs.len() && a != b implies qs[a].0 != qs[b].0 by {
            assert(qs[a].0 == ps[a].0);
            assert(qs[b].0 == ps[b].0);
        }
    }
    let init = ps.drop_last();
    assert(keys_distinct(init));
    if i == ps.len() - 1 {
        assert(qs.drop_last() == init);
    } else {
        lemma_pairs_to_map_update(init, i, v);
        assert(qs.drop_last() == init.update(i, (ps[i].0, v)));
        assert(ps.last().0 != ps[i].0);
    }
}

impl StringMap {
    /// An empty map.
    pub fn new() -> (m: StringMap)
        ensures
            m.pairs() == Seq::<(Seq<char>, Seq<char>)>::empty(),
            m@ == Map::<Seq<char>, Seq<char>>::empty(),
    {
        let m = StringMap { entries: Vec::new() };
        assert(m.pairs() == Seq::<(Seq<char>, Seq<char>)>::empty());
        m
    }

    /// Number of keys.
    pub fn len(&self) -> (n: usize)
        ensures
            n == self.pairs().len(),
    {
        self.entries.len()
    }

    /// No key is present.
    pub fn is_empty(&self) -> (b: bool)
        ensures
            b == (self.pairs().len() == 0),
            b == (self@ == Map::<Seq<char>, Seq<char>>::empty()),
    {
        proof {
            use_type_invariant(self);
            if self.pairs().len() > 0 {
                let k = self.pairs()[0].0;
                lemma_pairs_to_map_lookup(self.pairs(), k);
                assert(self@.contains_key(k));
            }
        }
        self.entries.len() == 0
    }

    /// The pairs, in insertion order.
    pub fn entries(&self) -> (es: &[(String, String)])
        ensures
            es@.map_values(|e: (String, String)| entry_view(e)) == self.pairs(),
    {
        self.entries.as_slice()
    }

    /// Index of the pair with key `k`.
    fn index_of(&self, k: &str) -> (r: Option<usize>)
        ensures
            match r {
                Some(i) => i < self.pairs().len() && self.pairs()[i as int].0 == k@,
                None => forall|i: int| 0 <= i < self.pairs().len() ==> self.pairs()[i].0 != k@,
            },
    {
        let n = self.entries.len();
        for i in 0..n
            invariant
                n == self.pairs().len(),
                forall|j: int| 0 <= j < i ==> self.pairs()[j].0 != k@,
        {
            let key: &str = self.entries[i].0.as_str();
            if str_eq(key, k) {
                return Some(i);
            }
        }
        None
    }

    /// The value stored under `k` (`HashMap::get`).
    pub fn get(&self, k: &str) -> (r: Option<&String>)
        ensures
            match r {
                Some(v) => self@.contains_key(k@) && self@[k@] == v@,
                None => !self@.contains_key(k@),
            },
    {
        proof {
            use_type_invariant(self);
            lemma_pairs_to_map_lookup(self.pairs(), k@);
        }
        match self.index_of(k) {
            Some(i) => Some(&self.entries[i].1),
            None => None,
        }
    }

    /// `k` is a key.
    pub fn contains_key(&self, k: &str) -> (b: bool)
        ensures
            b == self@.contains_key(k@),
    {
        proof {
            use_type_invariant(self);
            lemma_pairs_to_map_lookup(self.pairs(), k@);
        }
        self.index_of(k).is_some()
    }

    /// Stores `v` under `k`, replacing any earlier value (`HashMap::insert`).
    /// A new key goes after the existing ones; an existing key keeps its place.
    pub fn insert(&mut self, k: String, v: String)
        ensures
            final(self)@ == old(self)@.insert(k@, v@),
            old(self)@.contains_key(k@) ==> exists|i: int|
                0 <= i < old(self).pairs().len() && old(self).pairs()[i].0 == k@ && final(self).pairs()
                    == old(self).pairs().update(i, (k@, v@)),
            !old(self)@.contains_key(k@) ==> final(self).pairs() == old(self).pairs().push((k@, v@)),
    {
        proof {
            use_type_invariant(&*self);
            lemma_pairs_to_map_lookup(self.pairs(), k@);
        }
        let ghost ps = self.pairs();
        match self.index_of(k.as_str()) {
            Some(i) => {
                let mut entries: Vec<(String, String)> = Vec::new();
                std::mem::swap(&mut entries, &mut self.entries);
                let key = entries[i].0.clone();
                entries.set(i, (key, v));
                proof {
                    assert(ps[i as int].0 == k@);
                    lemma_pairs_to_map_update(ps, i as int, v@);
                    assert(entries@.map_values(|e: (String, String)| entry_view(e)) == ps.update(
                        i as int,
                        (ps[i as int].0, v@),
                    ));
                }
                self.entries = entries;
            },
            None => {
                let mut entries: Vec<(String, String)> = Vec::new();
                std::mem::swap(&mut entries, &mut self.entries);
                entries.push((k, v));
                proof {
                    assert(entries@.map_values(|e: (String, String)| entry_view(e)) == ps.push(
                        (k@, v@),
                    ));
                    assert(ps.push((k@, v@)).drop_last() == ps);
                }
                self.entries = entries;
            },
        }
    }
}

impl Clone for StringMap {
    /// A copy with the same pairs in the same order.
    fn clone(&self) -> (c: StringMap)
        ensures
            c.pairs() == self.pairs(),
            c@ == self@,
    {
        proof {
            use_type_invariant(self);
        }
        let mut entries: Vec<(String, String)> = Vec::new();
        let n = self.entries.len();
        for i in 0..n
            invariant
                n == self.pairs().len(),
                keys_distinct(self.pairs()),
                entries@.map_values(|e: (String, String)| entry_view(e)) == self.pairs().take(
                    i as int,
                ),
        {
            let (k, v) = &self.entries[i];
            entries.push((k.clone(), v.clone()));
            assert(self.pairs()[i as int] == (k@, v@));
            assert(self.pairs().take(i + 1) == self.pairs().take(i as int).push((k@, v@)));
            assert(entries@.map_values(|e: (String, String)| entry_view(e)) == self.pairs().take(
                i as int,
            ).push((k@, v@)));
        }
        assert(self.pairs().take(n as int) == self.pairs());
        StringMap { entries }
    }
}

/// Equality of string slices.
pub fn str_eq(a: &str, b: &str) -> (r: bool)
    ensures
        r == (a@ == b@),
{
    let x = crate::text::chars_of(a);
    let y = crate::text::chars_of(b);
    if x.len() != y.len() {
        return false;
    }
    let n = x.len();
    for i in 0..n
        invariant
            n == x@.len() == y@.len(),
            x@ == a@,
            y@ == b@,
            forall|j: int| 0 <= j < i ==> x@[j] == y@[j],
    {
        if x[i] != y[i] {
            proof {
                if a@ == b@ {
                    assert(x@[i as int] == y@[i as int]);
                }
            }
            return false;
        }
    }
    assert(x@ == y@);
    true
}

} // verus!
