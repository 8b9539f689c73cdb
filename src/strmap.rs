//! A small string-to-string map kept as a list of entries with distinct keys.
//!
//! Selectors, labels and annotations are such maps. The entries keep the order in
//! which they were inserted; the map itself is what `view` gives.
use vstd::prelude::*;

verus! {

/// The map that a list of pairs describes: a later pair overrides an earlier one with
/// the same key.
pub open spec fn map_of<V>(s: Seq<(Seq<char>, V)>) -> Map<Seq<char>, V>
    decreases s.len(),
{
    if s.len() == 0 {
        Map::empty()
    } else {
        map_of(s.drop_last()).insert(s.last().0, s.last().1)
    }
}

pub open spec fn keys_unique<V>(s: Seq<(Seq<char>, V)>) -> bool {
    forall|i: int, j: int| 0 <= i < j < s.len() ==> #[trigger] s[i].0 != #[trigger] s[j].0
}

pub open spec fn pair_view(p: (String, String)) -> (Seq<char>, Seq<char>) {
    (p.0@, p.1@)
}

pub struct StrMap {
    pub entries: Vec<(String, String)>,
}

impl View for StrMap {
    type V = Map<Seq<char>, Seq<char>>;

    open spec fn view(&self) -> Map<Seq<char>, Seq<char>> {
        map_of(self.pairs())
    }
}

impl StrMap {
    /// The entries, as pairs of character sequences, in their order.
    pub open spec fn pairs(&self) -> Seq<(Seq<char>, Seq<char>)> {
        self.entries@.map_values(|p: (String, String)| pair_view(p))
    }

    pub open spec fn wf(&self) -> bool {
        keys_unique(self.pairs())
    }

    pub fn new() -> (r: StrMap)
        ensures
            r.wf(),
            r@ == Map::<Seq<char>, Seq<char>>::empty(),
            r.pairs().len() == 0,
    {
        let r = StrMap { entries: Vec::new() };
        assert(r.pairs() =~= Seq::<(Seq<char>, Seq<char>)>::empty());
        r
    }

    pub fn len(&self) -> (r: usize)
        requires
            self.wf(),
        ensures
            r == self@.len(),
            r == self.pairs().len(),
    {
        proof {
            lemma_map_of_len(self.pairs());
        }
        self.entries.len()
    }

    /// The position of `key` among the entries.
    pub fn find(&self, key: &String) -> (r: Option<usize>)
        requires
            self.wf(),
        ensures
            match r {
                Some(i) => i < self.pairs().len() && self.pairs()[i as int].0 == key@,
                None => !self@.contains_key(key@),
            },
            r is Some <==> self@.contains_key(key@),
    {
        let mut i: usize = 0;
        while i < self.entries.len()
            invariant
                self.wf(),
                i <= self.entries@.len(),
                forall|j: int| 0 <= j < i ==> #[trigger] self.pairs()[j].0 != key@,
            decreases self.entries@.len() - i,
        {
            if self.entries[i].0 == *key {
                proof {
                    lemma_map_of_unique(self.pairs(), i as int);
                }
                return Some(i);
            }
            i = i + 1;
        }
        proof {
            lemma_map_of_dom(self.pairs(), key@);
        }
        None
    }

    pub fn get(&self, key: &String) -> (r: Option<&String>)
        requires
            self.wf(),
        ensures
            r is Some <==> self@.contains_key(key@),
            r is Some ==> r->0@ == self@[key@],
    {
        match self.find(key) {
            Some(i) => {
                proof {
                    lemma_map_of_unique(self.pairs(), i as int);
                }
                Some(&self.entries[i].1)
            },
            None => None,
        }
    }

    /// Sets `key` to `value`, in place when the key is present, else as a new last entry.
    pub fn insert(&mut self, key: String, value: String)
        requires
            old(self).wf(),
        ensures
            final(self).wf(),
            final(self)@ == old(self)@.insert(key@, value@),
    {
        match self.find(&key) {
            Some(i) => {
                let ghost before = self.pairs();
                self.entries.set(i, (key, value));
                proof {
                    let after = self.pairs();
                    assert(after =~= before.update(i as int, (key@, value@)));
                    lemma_map_of_update(before, i as int, value@);
                    assert(keys_unique(after)) by {
                        assert forall|a: int, b: int| 0 <= a < b < after.len() implies
                            #[trigger] after[a].0 != #[trigger] after[b].0 by {
                            assert(before[a].0 != before[b].0);
                        }
                    }
                }
            },
            None => {
                let ghost before = self.pairs();
                self.entries.push((key, value));
                proof {
                    let after = self.pairs();
                    assert(after.drop_last() =~= before);
                    lemma_map_of_dom(before, key@);
                    assert(keys_unique(after)) by {
                        assert forall|a: int, b: int| 0 <= a < b < after.len() implies
                            #[trigger] after[a].0 != #[trigger] after[b].0 by {
                            if b == after.len() - 1 {
                                assert(before[a].0 == after[a].0);
                            } else {
                                assert(before[a].0 != before[b].0);
                            }
                        }
                    }
                }
            },
        }
    }

    /// A copy with the same entries in the same order.
    pub fn copy(&self) -> (r: StrMap)
        ensures
            r.pairs() == self.pairs(),
            r@ == self@,
            self.wf() ==> r.wf(),
    {
        let mut entries: Vec<(String, String)> = Vec::new();
        let mut k: usize = 0;
        while k < self.entries.len()
            invariant
                k <= self.entries@.len(),
                entries@.len() == k,
                forall|j: int| 0 <= j < k ==> #[trigger] pair_view(entries@[j]) == pair_view(
                    self.entries@[j],
                ),
            decreases self.entries@.len() - k,
        {
            entries.push((self.entries[k].0.clone(), self.entries[k].1.clone()));
            k = k + 1;
        }
        let r = StrMap { entries };
        assert(r.pairs() =~= self.pairs());
        r
    }

    /// The map of a list of pairs; a later pair overrides an earlier one with the same key.
    pub fn from_pairs(pairs: Vec<(String, String)>) -> (r: StrMap)
        ensures
            r.wf(),
            r@ == map_of(pairs@.map_values(|p: (String, String)| pair_view(p))),
    {
        let ghost src = pairs@.map_values(|p: (String, String)| pair_view(p));
        let mut m = StrMap::new();
        let mut k: usize = 0;
        while k < pairs.len()
            invariant
                m.wf(),
                k <= pairs@.len(),
                src == pairs@.map_values(|p: (String, String)| pair_view(p)),
                m@ == map_of(src.take(k as int)),
            decreases pairs@.len() - k,
        {
            let key = pairs[k].0.clone();
            let value = pairs[k].1.clone();
            proof {
                assert(src.take(k + 1).drop_last() =~= src.take(k as int));
            }
            m.insert(key, value);
            k = k + 1;
        }
        assert(src.take(k as int) =~= src);
        m
    }
}

pub proof fn lemma_map_of_push<V>(s: Seq<(Seq<char>, V)>, p: (Seq<char>, V))
    ensures
        map_of(s.push(p)) == map_of(s).insert(p.0, p.1),
{
    assert(s.push(p).drop_last() =~= s);
}

pub proof fn lemma_map_of_dom<V>(s: Seq<(Seq<char>, V)>, k: Seq<char>)
    ensures
        map_of(s).contains_key(k) <==> exists|i: int| 0 <= i < s.len() && #[trigger] s[i].0 == k,
    decreases s.len(),
{
    if s.len() > 0 {
        let p = s.drop_last();
        lemma_map_of_dom(p, k);
        if map_of(s).contains_key(k) {
            if s.last().0 != k {
                let i = choose|i: int| 0 <= i < p.len() && #[trigger] p[i].0 == k;
                assert(s[i].0 == k);
            } else {
                assert(s[s.len() - 1].0 == k);
            }
        }
        if exists|i: int| 0 <= i < s.len() && #[trigger] s[i].0 == k {
            let i = choose|i: int| 0 <= i < s.len() && #[trigger] s[i].0 == k;
            if i < s.len() - 1 {
                assert(p[i].0 == k);
            }
        }
    }
}

pub proof fn lemma_map_of_unique<V>(s: Seq<(Seq<char>, V)>, i: int)
    requires
        keys_unique(s),
        0 <= i < s.len(),
    ensures
        map_of(s).contains_key(s[i].0),
        map_of(s)[s[i].0] == s[i].1,
    decreases s.len(),
{
    let p = s.drop_last();
    if i < s.len() - 1 {
        assert(keys_unique(p)) by {
            assert forall|a: int, b: int| 0 <= a < b < p.len() implies #[trigger] p[a].0
                != #[trigger] p[b].0 by {
                assert(s[a].0 != s[b].0);
            }
        }
        assert(p[i] == s[i]);
        lemma_map_of_unique(p, i);
        assert(s[i].0 != s[s.len() - 1].0);
    }
}

pub proof fn lemma_map_of_update<V>(s: Seq<(Seq<char>, V)>, i: int, v: V)
    requires
        keys_unique(s),
        0 <= i < s.len(),
    ensures
        map_of(s.update(i, (s[i].0, v))) == map_of(s).insert(s[i].0, v),
    decreases s.len(),
{
    let t = s.update(i, (s[i].0, v));
    let p = s.drop_last();
    if i == s.len() - 1 {
        assert(t.drop_last() =~= p);
        lemma_map_of_dom(p, s[i].0);
        assert(map_of(t) =~= map_of(s).insert(s[i].0, v));
    } else {
        assert(keys_unique(p)) by {
            assert forall|a: int, b: int| 0 <= a < b < p.len() implies #[trigger] p[a].0
                != #[trigger] p[b].0 by {
                assert(s[a].0 != s[b].0);
            }
        }
        lemma_map_of_update(p, i, v);
        assert(t.drop_last() =~= p.update(i, (s[i].0, v)));
        assert(s[i].0 != s.last().0);
        assert(map_of(t) =~= map_of(s).insert(s[i].0, v));
    }
}

pub proof fn lemma_map_of_len<V>(s: Seq<(Seq<char>, V)>)
    requires
        keys_unique(s),
    ensures
        map_of(s).dom().finite(),
        map_of(s).len() == s.len(),
    decreases s.len(),
{
    if s.len() > 0 {
        let p = s.drop_last();
        assert(keys_unique(p)) by {
            assert forall|a: int, b: int| 0 <= a < b < p.len() implies #[trigger] p[a].0
                != #[trigger] p[b].0 by {
                assert(s[a].0 != s[b].0);
            }
        }
        lemma_map_of_len(p);
        lemma_map_of_dom(p, s.last().0);
        if map_of(p).contains_key(s.last().0) {
            let i = choose|i: int| 0 <= i < p.len() && #[trigger] p[i].0 == s.last().0;
            assert(s[i].0 != s[s.len() - 1].0);
        }
        assert(map_of(s).dom() =~= map_of(p).dom().insert(s.last().0));
    } else {
        assert(map_of(s).dom() =~= Set::<Seq<char>>::empty());
    }
}

} // verus!
