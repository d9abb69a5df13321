//! A map from strings to strings where a later insert of a key replaces the
//! earlier value, kept as the list of inserts.
use vstd::prelude::*;

verus! {

broadcast use vstd::string::group_string_axioms;

/// The value of the last insert of `k` in `pairs`.
pub open spec fn lookup(pairs: Seq<(Seq<char>, Seq<char>)>, k: Seq<char>) -> Option<Seq<char>>
    decreases pairs.len(),
{
    if pairs.len() == 0 {
        None
    } else if pairs.last().0 == k {
        Some(pairs.last().1)
    } else {
        lookup(pairs.drop_last(), k)
    }
}

/// The map that the inserts in `pairs` build.
pub open spec fn pairs_to_map(pairs: Seq<(Seq<char>, Seq<char>)>) -> Map<Seq<char>, Seq<char>>
    decreases pairs.len(),
{
    if pairs.len() == 0 {
        Map::empty()
    } else {
        pairs_to_map(pairs.drop_last()).insert(pairs.last().0, pairs.last().1)
    }
}

pub proof fn lemma_lookup_is_map(pairs: Seq<(Seq<char>, Seq<char>)>, k: Seq<char>)
    ensures
        lookup(pairs, k) is Some <==> pairs_to_map(pairs).dom().contains(k),
        lookup(pairs, k) matches Some(v) ==> pairs_to_map(pairs)[k] == v,
    decreases pairs.len(),
{
    if pairs.len() > 0 {
        lemma_lookup_is_map(pairs.drop_last(), k);
    }
}

pub open spec fn opt_string_view(o: Option<String>) -> Option<Seq<char>> {
    match o {
        Some(s) => Some(s@),
        None => None,
    }
}

#[derive(Debug)]
pub struct StrMap {
    entries: Vec<(String, String)>,
}

impl View for StrMap {
    type V = Seq<(Seq<char>, Seq<char>)>;

    closed spec fn view(&self) -> Seq<(Seq<char>, Seq<char>)> {
        Seq::new(self.entries@.len(), |i: int| (self.entries@[i].0@, self.entries@[i].1@))
    }
}

impl StrMap {
    pub fn new() -> (r: StrMap)
        ensures
            r@ == Seq::<(Seq<char>, Seq<char>)>::empty(),
    {
        let r = StrMap { entries: Vec::new() };
        assert(r@ =~= Seq::<(Seq<char>, Seq<char>)>::empty());
        r
    }

    /// Sets `key` to `value`; an earlier value of `key` is replaced.
    pub fn insert(&mut self, key: String, value: String)
        ensures
            final(self)@ == old(self)@.push((key@, value@)),
    {
        self.entries.push((key, value));
        assert(self@ =~= old(self)@.push((key@, value@)));
    }

    /// The value of `key`, if it was ever set.
    pub fn get(&self, key: &str) -> (r: Option<String>)
        ensures
            opt_string_view(r) == lookup(self@, key@),
    {
        let k = key.to_owned();
        let mut i = self.entries.len();
        assert(self@.take(i as int) =~= self@);
        while i > 0
            invariant
                i <= self.entries@.len(),
                k@ == key@,
                lookup(self@, key@) == lookup(self@.take(i as int), key@),
            decreases i,
        {
            let ghost prefix = self@.take(i as int);
            assert(prefix.drop_last() =~= self@.take(i - 1));
            assert(prefix.last() == (self.entries@[i - 1].0@, self.entries@[i - 1].1@));
            if self.entries[i - 1].0 == k {
                return Some(self.entries[i - 1].1.clone());
            }
            i = i - 1;
        }
        None
    }

    /// Number of inserts.
    pub fn len(&self) -> (r: usize)
        ensures
            r == self@.len(),
    {
        self.entries.len()
    }

    /// The key and value of insert number `i`.
    pub fn entry(&self, i: usize) -> (r: (String, String))
        requires
            i < self@.len(),
        ensures
            (r.0@, r.1@) == self@[i as int],
    {
        (self.entries[i].0.clone(), self.entries[i].1.clone())
    }
}

/// A read gives back what the last write of that key wrote.
pub proof fn law_lookup_after_insert(
    pairs: Seq<(Seq<char>, Seq<char>)>,
    k: Seq<char>,
    v: Seq<char>,
    other: Seq<char>,
)
    ensures
        lookup(pairs.push((k, v)), k) == Some(v),
        other != k ==> lookup(pairs.push((k, v)), other) == lookup(pairs, other),
{
    assert(pairs.push((k, v)).drop_last() =~= pairs);
}

} // verus!
