//! Sets of record keys.

use crate::strmap::StrMap;
use vstd::prelude::*;

verus! {

/// A finite set of record keys.
pub struct KeySet {
    members: StrMap<()>,
}

impl View for KeySet {
    type V = Set<Seq<char>>;

    closed spec fn view(&self) -> Set<Seq<char>> {
        self.members@.dom()
    }
}

impl KeySet {
    /// The keys in the order in which [`KeySet::key_at`] hands them out.
    pub closed spec fn keys(self) -> Seq<Seq<char>> {
        self.members.keys()
    }

    /// The empty set.
    pub fn new() -> (s: Self)
        ensures
            s@ == Set::<Seq<char>>::empty(),
    {
        let s = KeySet { members: StrMap::new() };
        assert(s@ =~= Set::<Seq<char>>::empty());
        s
    }

    /// The number of keys. The keys handed out by position are all
    /// different and are the set's members.
    pub fn len(&self) -> (n: usize)
        ensures
            n == self@.len(),
            n == self.keys().len(),
            self@.finite(),
            self.keys().no_duplicates(),
            self.keys().to_set() == self@,
    {
        self.members.len()
    }

    pub fn is_empty(&self) -> (r: bool)
        ensures
            r == (self@ =~= Set::<Seq<char>>::empty()),
    {
        self.members.is_empty()
    }

    pub fn contains(&self, key: &str) -> (r: bool)
        ensures
            r == self@.contains(key@),
    {
        self.members.contains_key(key)
    }

    /// The `i`-th key.
    pub fn key_at(&self, i: usize) -> (k: &String)
        requires
            i < self.keys().len(),
        ensures
            k@ == self.keys()[i as int],
            self@.contains(k@),
    {
        self.members.key_at(i)
    }

    /// Puts `key` in; tells whether it was new.
    pub fn insert(&mut self, key: String) -> (fresh: bool)
        ensures
            final(self)@ == old(self)@.insert(key@),
            fresh == !old(self)@.contains(key@),
    {
        let prev = self.members.insert(key, ());
        assert(self@ =~= old(self)@.insert(key@));
        prev.is_none()
    }

    /// Takes `key` out; tells whether it was there.
    pub fn remove(&mut self, key: &str) -> (was: bool)
        ensures
            final(self)@ == old(self)@.remove(key@),
            was == old(self)@.contains(key@),
    {
        let prev = self.members.remove(key);
        assert(self@ =~= old(self)@.remove(key@));
        prev.is_some()
    }

    /// Puts every key of `other` in.
    pub fn extend(&mut self, other: &KeySet)
        ensures
            final(self)@ == old(self)@.union(other@),
    {
        let n = other.len();
        let mut i: usize = 0;
        while i < n
            invariant
                i <= n == other.keys().len(),
                other.keys().to_set() == other@,
                self@ =~= old(self)@.union(other.keys().take(i as int).to_set()),
            decreases n - i,
        {
            let k = other.key_at(i).clone();
            let ghost before = self@;
            self.insert(k);
            i = i + 1;
            proof {
                let seen = other.keys().take(i - 1);
                assert(other.keys().take(i as int) =~= seen.push(other.keys()[i - 1]));
                seen.lemma_push_to_set_commute(other.keys()[i - 1]);
            }
        }
        assert(other.keys().take(n as int) =~= other.keys());
    }

    /// The keys that are in `self` or in `other`.
    pub fn union(&self, other: &KeySet) -> (r: KeySet)
        ensures
            r@ == self@.union(other@),
    {
        let mut r = KeySet::new();
        r.extend(self);
        r.extend(other);
        assert(r@ =~= self@.union(other@));
        r
    }

    /// The keys that are in `self` and in `other`.
    pub fn intersection(&self, other: &KeySet) -> (r: KeySet)
        ensures
            r@ == self@.intersect(other@),
    {
        let mut r = KeySet::new();
        let n = self.len();
        let mut i: usize = 0;
        while i < n
            invariant
                i <= n == self.keys().len(),
                self.keys().to_set() == self@,
                forall|x: Seq<char>| #[trigger]
                    r@.contains(x) <==> other@.contains(x) && exists|j: int|
                        0 <= j < i && self.keys()[j] == x,
            decreases n - i,
        {
            let k = self.key_at(i);
            if other.contains(k.as_str()) {
                r.insert(k.clone());
            }
            i = i + 1;
        }
        assert(r@ =~= self@.intersect(other@)) by {
            assert forall|x: Seq<char>| self@.intersect(other@).contains(x) implies r@.contains(
                x,
            ) by {
                let j = choose|j: int| 0 <= j < self.keys().len() && self.keys()[j] == x;
                assert(self.keys()[j] == x);
            }
        }
        r
    }

    /// A copy of the set.
    pub fn copy(&self) -> (r: KeySet)
        ensures
            r@ == self@,
    {
        let mut r = KeySet::new();
        r.extend(self);
        assert(r@ =~= self@);
        r
    }
}

} // verus!
