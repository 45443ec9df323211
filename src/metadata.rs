//! Release metadata: a map from string keys to string values.

use vstd::prelude::*;
use crate::text::str_eq;

verus! {

/// The map that a sequence of entries stands for (a later entry wins).
pub open spec fn map_of(s: Seq<(Seq<char>, Seq<char>)>) -> Map<Seq<char>, Seq<char>>
    decreases s.len(),
{
    if s.len() == 0 {
        Map::empty()
    } else {
        map_of(s.drop_last()).insert(s.last().0, s.last().1)
    }
}

/// No key occurs twice.
pub open spec fn keys_unique(s: Seq<(Seq<char>, Seq<char>)>) -> bool {
    forall|i: int, j: int| 0 <= i < s.len() && 0 <= j < s.len() && i != j ==> s[i].0 != s[j].0
}

pub proof fn lemma_map_of(s: Seq<(Seq<char>, Seq<char>)>)
    requires
        keys_unique(s),
    ensures
        forall|k: Seq<char>| #[trigger]
            map_of(s).contains_key(k) <==> exists|i: int| 0 <= i < s.len() && s[i].0 == k,
        forall|i: int| 0 <= i < s.len() ==> #[trigger] map_of(s)[s[i].0] == s[i].1,
    decreases s.len(),
{
    if s.len() > 0 {
        let t = s.drop_last();
        assert(keys_unique(t));
        lemma_map_of(t);
        assert(map_of(s) == map_of(t).insert(s.last().0, s.last().1));
        assert forall|k: Seq<char>| #[trigger]
            map_of(s).contains_key(k) <==> exists|i: int| 0 <= i < s.len() && s[i].0 == k by {
            if map_of(s).contains_key(k) && k != s.last().0 {
                assert(map_of(t).contains_key(k));
                let i = choose|i: int| 0 <= i < t.len() && t[i].0 == k;
                assert(s[i].0 == k);
            }
            if exists|i: int| 0 <= i < s.len() && s[i].0 == k {
                let i = choose|i: int| 0 <= i < s.len() && s[i].0 == k;
                if i < t.len() {
                    assert(t[i].0 == k);
                    assert(map_of(t).contains_key(k));
                }
            }
        }
        assert forall|i: int| 0 <= i < s.len() implies #[trigger] map_of(s)[s[i].0] == s[i].1 by {
            if i < t.len() {
                assert(t[i] == s[i]);
                assert(s[i].0 != s[s.len() - 1].0);
                assert(map_of(t)[t[i].0] == t[i].1);
            }
        }
    }
}

/// Entries as character sequences.
pub open spec fn entry_seq(v: Seq<(String, String)>) -> Seq<(Seq<char>, Seq<char>)> {
    v.map_values(|e: (String, String)| (e.0@, e.1@))
}

/// The metadata of a release: keys are unique, the order of entries carries no meaning.
#[derive(Debug, PartialEq, Eq)]
pub struct Metadata {
    entries: Vec<(String, String)>,
}

impl Clone for Metadata {
    fn clone(&self) -> (r: Metadata)
        ensures
            r@ == self@,
    {
        self.duplicate_exact()
    }
}

impl View for Metadata {
    type V = Map<Seq<char>, Seq<char>>;

    open spec fn view(&self) -> Map<Seq<char>, Seq<char>> {
        map_of(self.entry_views())
    }
}

impl Metadata {
    /// The entries as character sequences, in stored order.
    pub closed spec fn entry_views(&self) -> Seq<(Seq<char>, Seq<char>)> {
        entry_seq(self.entries@)
    }

    pub closed spec fn wf(&self) -> bool {
        keys_unique(self.entry_views())
    }

    #[verifier::type_invariant]
    spec fn inv(&self) -> bool {
        keys_unique(self.entry_views())
    }

    /// Every map keeps its keys unique; this makes that fact available to a caller.
    pub fn check_wf(&self)
        ensures
            self.wf(),
    {
        proof {
            use_type_invariant(self);
        }
    }

    /// An empty map.
    pub fn new() -> (r: Metadata)
        ensures
            r.wf(),
            r@ == Map::<Seq<char>, Seq<char>>::empty(),
            r.entry_views().len() == 0,
    {
        let entries: Vec<(String, String)> = Vec::new();
        assert(entry_seq(entries@) =~= Seq::<(Seq<char>, Seq<char>)>::empty());
        let r = Metadata { entries };
        r
    }

    /// An entry-by-entry copy.
    pub fn duplicate(&self) -> (r: Metadata)
        ensures
            r.wf(),
            r@ == self@,
    {
        proof {
            use_type_invariant(self);
        }
        let mut entries: Vec<(String, String)> = Vec::new();
        let mut i: usize = 0;
        while i < self.entries.len()
            invariant
                i <= self.entries.len(),
                entries@.len() == i,
                forall|k: int| 0 <= k < i ==> entries@[k].0@ == self.entries@[k].0@
                    && entries@[k].1@ == self.entries@[k].1@,
            decreases self.entries.len() - i,
        {
            entries.push((self.entries[i].0.clone(), self.entries[i].1.clone()));
            i = i + 1;
        }
        assert(entry_seq(entries@) =~= self.entry_views());
        let r = Metadata { entries };
        r
    }

    /// The entry at position `i`, in stored order.
    pub fn entry_at(&self, i: usize) -> (r: (String, String))
        requires
            i < self.entry_views().len(),
        ensures
            (r.0@, r.1@) == self.entry_views()[i as int],
    {
        (self.entries[i].0.clone(), self.entries[i].1.clone())
    }

    fn duplicate_exact(&self) -> (r: Metadata)
        ensures
            r.entry_views() == self.entry_views(),
    {
        proof {
            use_type_invariant(self);
        }
        let mut entries: Vec<(String, String)> = Vec::new();
        let mut i: usize = 0;
        while i < self.entries.len()
            invariant
                i <= self.entries.len(),
                entries@.len() == i,
                forall|k: int| 0 <= k < i ==> entries@[k].0@ == self.entries@[k].0@
                    && entries@[k].1@ == self.entries@[k].1@,
                keys_unique(self.entry_views()),
            decreases self.entries.len() - i,
        {
            entries.push((self.entries[i].0.clone(), self.entries[i].1.clone()));
            i = i + 1;
        }
        assert(entry_seq(entries@) =~= self.entry_views());
        let r = Metadata { entries };
        r
    }

    /// The number of entries.
    pub fn len(&self) -> (r: usize)
        ensures
            r == self@.len(),
            r == self.entry_views().len(),
    {
        proof {
            use_type_invariant(self);
        }
        proof {
            self.lemma_len();
        }
        self.entries.len()
    }

    proof fn lemma_len(&self)
        requires
            self.wf(),
        ensures
            self@.len() == self.entry_views().len(),
            self@.dom() == self.entry_views().map_values(|e: (Seq<char>, Seq<char>)| e.0).to_set(),
    {
        let s = self.entry_views();
        let ks = s.map_values(|e: (Seq<char>, Seq<char>)| e.0);
        lemma_map_of(s);
        assert(self@.dom() =~= ks.to_set()) by {
            assert forall|k: Seq<char>| self@.dom().contains(k) implies ks.to_set().contains(k) by {
                let i = choose|i: int| 0 <= i < s.len() && s[i].0 == k;
                assert(ks[i] == k);
            }
            assert forall|k: Seq<char>| ks.to_set().contains(k) implies self@.dom().contains(k) by {
                let i = choose|i: int| 0 <= i < ks.len() && ks[i] == k;
                assert(s[i].0 == k);
            }
        }
        assert(ks.no_duplicates()) by {
            assert forall|i: int, j: int| 0 <= i < ks.len() && 0 <= j < ks.len() && i != j implies ks[i] != ks[j] by {
                assert(s[i].0 != s[j].0);
            }
        }
        ks.unique_seq_to_set();
    }

    /// The position of `key` among the entries, if present.
    fn find(&self, key: &str) -> (r: Option<usize>)
        requires
            self.wf(),
        ensures
            match r {
                Some(i) => i < self.entries.len() && self.entry_views()[i as int].0 == key@,
                None => !self@.contains_key(key@),
            },
    {
        proof {
            lemma_map_of(self.entry_views());
        }
        let mut i: usize = 0;
        while i < self.entries.len()
            invariant
                i <= self.entries.len(),
                forall|k: int| 0 <= k < i ==> self.entry_views()[k].0 != key@,
            decreases self.entries.len() - i,
        {
            if str_eq(self.entries[i].0.as_str(), key) {
                return Some(i);
            }
            i = i + 1;
        }
        None
    }

    /// Whether `key` has a value.
    pub fn contains_key(&self, key: &str) -> (r: bool)
        ensures
            r == self@.contains_key(key@),
    {
        proof {
            use_type_invariant(self);
        }
        proof {
            lemma_map_of(self.entry_views());
        }
        match self.find(key) {
            Some(i) => true,
            None => false,
        }
    }

    /// The value of `key`, if any.
    pub fn get(&self, key: &str) -> (r: Option<String>)
        ensures
            match r {
                Some(v) => self@.contains_key(key@) && self@[key@] == v@,
                None => !self@.contains_key(key@),
            },
    {
        proof {
            use_type_invariant(self);
        }
        proof {
            lemma_map_of(self.entry_views());
        }
        match self.find(key) {
            Some(i) => Some(self.entries[i].1.clone()),
            None => None,
        }
    }

    /// Sets `key` to `value`; returns the value it replaced, if any.
    pub fn insert(&mut self, key: String, value: String) -> (r: Option<String>)
        ensures
            final(self).wf(),
            final(self)@ == old(self)@.insert(key@, value@),
            match r {
                Some(p) => old(self)@.contains_key(key@) && old(self)@[key@] == p@,
                None => !old(self)@.contains_key(key@),
            },
    {
        proof {
            use_type_invariant(&*self);
        }
        proof {
            lemma_map_of(self.entry_views());
        }
        match self.find(key.as_str()) {
            Some(i) => {
                let ghost before = self.entry_views();
                let prev = self.entries[i].1.clone();
                let Metadata { entries: mut entries } = self.duplicate_exact();
                entries.set(i, (key, value));
                proof {
                    assert(entry_seq(entries@) =~= before.update(i as int, (key@, value@)));
                    assert(keys_unique(entry_seq(entries@)));
                }
                *self = Metadata { entries };
                proof {
                    let after = self.entry_views();
                    assert(after =~= before.update(i as int, (key@, value@)));
                    assert(keys_unique(after));
                    lemma_map_of(after);
                    assert(self@ =~= old(self)@.insert(key@, value@)) by {
                        assert forall|k: Seq<char>| self@.contains_key(k) <==> old(self)@.insert(key@, value@).contains_key(k) by {
                            if self@.contains_key(k) {
                                let j = choose|j: int| 0 <= j < after.len() && after[j].0 == k;
                                if j != i {
                                    assert(before[j].0 == k);
                                    assert(old(self)@.contains_key(k));
                                }
                            }
                            if old(self)@.insert(key@, value@).contains_key(k) {
                                if k == key@ {
                                    assert(after[i as int].0 == k);
                                } else {
                                    assert(old(self)@.contains_key(k));
                                    let j = choose|j: int| 0 <= j < before.len() && before[j].0 == k;
                                    assert(j != i);
                                    assert(after[j].0 == k);
                                }
                                assert(self@.contains_key(k));
                            }
                        }
                        assert forall|k: Seq<char>| self@.contains_key(k) implies self@[k] == old(self)@.insert(key@, value@)[k] by {
                            let j = choose|j: int| 0 <= j < after.len() && after[j].0 == k;
                            if j != i {
                                assert(before[j] == after[j]);
                            }
                        }
                    }
                }
                Some(prev)
            },
            None => {
                let ghost before = self.entry_views();
                let Metadata { entries: mut entries } = self.duplicate_exact();
                entries.push((key, value));
                proof {
                    let after = entry_seq(entries@);
                    assert(after =~= before.push((key@, value@)));
                    assert(after.drop_last() =~= before);
                    assert(keys_unique(after)) by {
                        assert forall|a: int, b: int| 0 <= a < after.len() && 0 <= b < after.len() && a != b implies after[a].0 != after[b].0 by {
                            if a < before.len() && b < before.len() {
                                assert(before[a] == after[a] && before[b] == after[b]);
                            } else if a < before.len() {
                                assert(before[a] == after[a]);
                            } else {
                                assert(before[b] == after[b]);
                            }
                        }
                    }
                }
                *self = Metadata { entries };
                None
            },
        }
    }
}

} // verus!
