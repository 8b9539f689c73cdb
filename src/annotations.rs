//! The controller's annotations on the resources it manages.
//!
//! Every key the controller owns starts with `kubesleeper/`.
use vstd::prelude::*;
use crate::strmap::{StrMap, map_of, pair_view, lemma_map_of_push};
use crate::text::{chars_of, string_of};

verus! {

/// `kubesleeper/`
pub open spec fn prefix() -> Seq<char> {
    seq!['k', 'u', 'b', 'e', 's', 'l', 'e', 'e', 'p', 'e', 'r', '/']
}

/// `store.replicas`
pub open spec fn store_replicas_key() -> Seq<char> {
    seq!['s', 't', 'o', 'r', 'e', '.', 'r', 'e', 'p', 'l', 'i', 'c', 'a', 's']
}

/// `store.selectors`
pub open spec fn store_selector_key() -> Seq<char> {
    seq!['s', 't', 'o', 'r', 'e', '.', 's', 'e', 'l', 'e', 'c', 't', 'o', 'r', 's']
}

/// `store.ports`
pub open spec fn store_ports_key() -> Seq<char> {
    seq!['s', 't', 'o', 'r', 'e', '.', 'p', 'o', 'r', 't', 's']
}

pub open spec fn has_prefix(k: Seq<char>) -> bool {
    k.len() >= prefix().len() && k.take(prefix().len() as int) == prefix()
}

pub open spec fn strip(k: Seq<char>) -> Seq<char> {
    k.skip(prefix().len() as int)
}

/// The entries of `ps` whose key carries the prefix.
pub open spec fn prefixed_pairs(ps: Seq<(Seq<char>, Seq<char>)>) -> Seq<(Seq<char>, Seq<char>)>
    decreases ps.len(),
{
    if ps.len() == 0 {
        Seq::empty()
    } else if has_prefix(ps.last().0) {
        prefixed_pairs(ps.drop_last()).push(ps.last())
    } else {
        prefixed_pairs(ps.drop_last())
    }
}

/// The entries of `ps` whose key carries the prefix, with the prefix taken off.
pub open spec fn stripped_pairs(ps: Seq<(Seq<char>, Seq<char>)>) -> Seq<(Seq<char>, Seq<char>)>
    decreases ps.len(),
{
    if ps.len() == 0 {
        Seq::empty()
    } else if has_prefix(ps.last().0) {
        stripped_pairs(ps.drop_last()).push((strip(ps.last().0), ps.last().1))
    } else {
        stripped_pairs(ps.drop_last())
    }
}

/// The part of a map whose keys carry the prefix.
pub open spec fn owned(m: Map<Seq<char>, Seq<char>>) -> Map<Seq<char>, Seq<char>> {
    Map::new(|k: Seq<char>| m.contains_key(k) && has_prefix(k), |k: Seq<char>| m[k])
}

/// The part of a map whose keys carry the prefix, keyed without it.
pub open spec fn unprefixed(m: Map<Seq<char>, Seq<char>>) -> Map<Seq<char>, Seq<char>> {
    Map::new(|k: Seq<char>| m.contains_key(prefix() + k), |k: Seq<char>| m[prefix() + k])
}

pub proof fn lemma_prefix_join(q: Seq<char>)
    ensures
        has_prefix(prefix() + q),
        strip(prefix() + q) == q,
{
    assert((prefix() + q).take(prefix().len() as int) =~= prefix());
    assert(strip(prefix() + q) =~= q);
}

proof fn lemma_prefix_split(k: Seq<char>)
    requires
        has_prefix(k),
    ensures
        k == prefix() + strip(k),
{
    assert(k =~= k.take(prefix().len() as int) + strip(k));
}

proof fn lemma_prefixed_pairs(ps: Seq<(Seq<char>, Seq<char>)>)
    ensures
        map_of(prefixed_pairs(ps)) == owned(map_of(ps)),
    decreases ps.len(),
{
    if ps.len() == 0 {
        assert(owned(map_of(ps)) =~= Map::empty());
    } else {
        lemma_prefixed_pairs(ps.drop_last());
        if has_prefix(ps.last().0) {
            lemma_map_of_push(prefixed_pairs(ps.drop_last()), ps.last());
        }
        assert(map_of(prefixed_pairs(ps)) =~= owned(map_of(ps)));
    }
}

proof fn lemma_stripped_pairs(ps: Seq<(Seq<char>, Seq<char>)>)
    ensures
        map_of(stripped_pairs(ps)) == unprefixed(map_of(ps)),
    decreases ps.len(),
{
    if ps.len() == 0 {
        assert(unprefixed(map_of(ps)) =~= Map::empty());
    } else {
        lemma_stripped_pairs(ps.drop_last());
        let k = ps.last().0;
        if has_prefix(k) {
            lemma_map_of_push(stripped_pairs(ps.drop_last()), (strip(k), ps.last().1));
            lemma_prefix_split(k);
            assert forall|q: Seq<char>| (prefix() + q == k) == (q == strip(k)) by {
                lemma_prefix_join(q);
            }
        } else {
            assert forall|q: Seq<char>| prefix() + q != k by {
                lemma_prefix_join(q);
            }
        }
        assert(map_of(stripped_pairs(ps)) =~= unprefixed(map_of(ps)));
    }
}

pub fn prefix_chars() -> (r: Vec<char>)
    ensures
        r@ == prefix(),
{
    let r = vec!['k', 'u', 'b', 'e', 's', 'l', 'e', 'e', 'p', 'e', 'r', '/'];
    assert(r@ =~= prefix());
    r
}

fn key_has_prefix(k: &String) -> (r: bool)
    ensures
        r == has_prefix(k@),
{
    let cs = chars_of(k.as_str());
    let p = prefix_chars();
    if cs.len() < p.len() {
        return false;
    }
    let mut i: usize = 0;
    while i < p.len()
        invariant
            i <= p@.len() <= cs@.len(),
            cs@ == k@,
            p@ == prefix(),
            cs@.take(i as int) == p@.take(i as int),
        decreases p@.len() - i,
    {
        if cs[i] != p[i] {
            assert(cs@.take(p@.len() as int)[i as int] != p@[i as int]);
            return false;
        }
        assert(cs@.take(i + 1) =~= cs@.take(i as int).push(cs@[i as int]));
        assert(p@.take(i + 1) =~= p@.take(i as int).push(p@[i as int]));
        i = i + 1;
    }
    assert(p@.take(i as int) =~= p@);
    true
}

fn key_without_prefix(k: &String) -> (r: String)
    requires
        has_prefix(k@),
    ensures
        r@ == strip(k@),
{
    let cs = chars_of(k.as_str());
    let mut out: Vec<char> = Vec::new();
    let mut i: usize = 12;
    while i < cs.len()
        invariant
            12 <= i <= cs@.len(),
            cs@ == k@,
            out@ == cs@.subrange(12, i as int),
        decreases cs@.len() - i,
    {
        out.push(cs[i]);
        assert(cs@.subrange(12, i + 1) =~= cs@.subrange(12, i as int).push(cs@[i as int]));
        i = i + 1;
    }
    assert(cs@.subrange(12, i as int) =~= strip(k@));
    string_of(&out)
}

/// The full key of one of the controller's annotations.
pub fn prefixed(key: &str) -> (r: String)
    ensures
        r@ == prefix() + key@,
{
    let mut p = prefix_chars();
    let k = chars_of(key);
    let mut i: usize = 0;
    while i < k.len()
        invariant
            i <= k@.len(),
            k@ == key@,
            p@ == prefix() + k@.take(i as int),
        decreases k@.len() - i,
    {
        p.push(k[i]);
        assert(k@.take(i + 1) =~= k@.take(i as int).push(k@[i as int]));
        i = i + 1;
    }
    assert(k@.take(i as int) =~= k@);
    string_of(&p)
}

/// `.annotations.`, the head of an annotation's field path in error reports.
pub open spec fn annotations_field_head() -> Seq<char> {
    seq!['.', 'a', 'n', 'n', 'o', 't', 'a', 't', 'i', 'o', 'n', 's', '.']
}

/// The field path of one of the controller's annotations: `.annotations.kubesleeper/<key>`.
pub fn annotation_field(key: &str) -> (r: String)
    ensures
        r@ == annotations_field_head() + prefix() + key@,
{
    let mut out = vec!['.', 'a', 'n', 'n', 'o', 't', 'a', 't', 'i', 'o', 'n', 's', '.'];
    assert(out@ =~= annotations_field_head());
    let full = chars_of(prefixed(key).as_str());
    let ghost start = out@;
    let mut i: usize = 0;
    while i < full.len()
        invariant
            i <= full@.len(),
            full@ == prefix() + key@,
            start == annotations_field_head(),
            out@ == start + full@.take(i as int),
        decreases full@.len() - i,
    {
        out.push(full[i]);
        assert(full@.take(i + 1) =~= full@.take(i as int).push(full@[i as int]));
        i = i + 1;
    }
    assert(full@.take(i as int) =~= full@);
    assert(out@ =~= annotations_field_head() + prefix() + key@);
    string_of(&out)
}

/// The controller's own annotations of a resource, under their full keys.
pub struct Annotations(pub StrMap);

impl View for Annotations {
    type V = Map<Seq<char>, Seq<char>>;

    open spec fn view(&self) -> Map<Seq<char>, Seq<char>> {
        self.0@
    }
}

impl Annotations {
    pub open spec fn wf(&self) -> bool {
        self.0.wf()
    }

    /// Keeps the annotations whose key carries the controller's prefix.
    pub fn from_raw(raw: &StrMap) -> (r: Annotations)
        requires
            raw.wf(),
        ensures
            r.wf(),
            r@ == owned(raw@),
    {
        let mut m = StrMap::new();
        let mut k: usize = 0;
        let ghost ps = raw.pairs();
        while k < raw.entries.len()
            invariant
                k <= raw.entries@.len(),
                ps == raw.pairs(),
                m.wf(),
                m@ == map_of(prefixed_pairs(ps.take(k as int))),
            decreases raw.entries@.len() - k,
        {
            let ghost t = ps.take(k + 1);
            assert(t.drop_last() =~= ps.take(k as int));
            assert(t.last() == pair_view(raw.entries@[k as int]));
            if key_has_prefix(&raw.entries[k].0) {
                proof {
                    lemma_map_of_push(prefixed_pairs(ps.take(k as int)), t.last());
                }
                m.insert(raw.entries[k].0.clone(), raw.entries[k].1.clone());
            }
            k = k + 1;
        }
        assert(ps.take(k as int) =~= ps);
        proof {
            lemma_prefixed_pairs(ps);
        }
        Annotations(m)
    }

    /// The value of the annotation `kubesleeper/<key>`.
    pub fn get(&self, key: &str) -> (r: Option<&String>)
        requires
            self.wf(),
        ensures
            r is Some <==> self@.contains_key(prefix() + key@),
            r is Some ==> r->0@ == self@[prefix() + key@],
    {
        let full = prefixed(key);
        self.0.get(&full)
    }
}

/// The controller's annotations among `raw`, keyed without the `kubesleeper/` prefix; none
/// when there are no annotations at all.
pub fn extract_kube_annoations(raw_annotations: Option<&StrMap>) -> (r: StrMap)
    requires
        raw_annotations matches Some(m) ==> m.wf(),
    ensures
        r.wf(),
        r@ == match raw_annotations {
            Some(m) => unprefixed(m@),
            None => Map::empty(),
        },
{
    match raw_annotations {
        None => StrMap::new(),
        Some(raw) => {
            let mut m = StrMap::new();
            let mut k: usize = 0;
            let ghost ps = raw.pairs();
            while k < raw.entries.len()
                invariant
                    k <= raw.entries@.len(),
                    ps == raw.pairs(),
                    m.wf(),
                    m@ == map_of(stripped_pairs(ps.take(k as int))),
                decreases raw.entries@.len() - k,
            {
                let ghost t = ps.take(k + 1);
                assert(t.drop_last() =~= ps.take(k as int));
                assert(t.last() == pair_view(raw.entries@[k as int]));
                if key_has_prefix(&raw.entries[k].0) {
                    proof {
                        lemma_map_of_push(
                            stripped_pairs(ps.take(k as int)),
                            (strip(t.last().0), t.last().1),
                        );
                    }
                    let key = key_without_prefix(&raw.entries[k].0);
                    m.insert(key, raw.entries[k].1.clone());
                }
                k = k + 1;
            }
            assert(ps.take(k as int) =~= ps);
            proof {
                lemma_stripped_pairs(ps);
            }
            m
        },
    }
}

} // verus!
