//! Maps and sets keyed by text, small enough to search by walking.

use crate::text;
use vstd::prelude::*;

verus! {

/// No key occurs twice.
pub open spec fn distinct_keys<V>(s: Seq<(Seq<char>, V)>) -> bool {
    forall|i: int, j: int| 0 <= i < j < s.len() ==> (#[trigger] s[i]).0 != (#[trigger] s[j]).0
}

/// Whether some entry has key `k`.
pub open spec fn has_key<V>(s: Seq<(Seq<char>, V)>, k: Seq<char>) -> bool {
    exists|i: int| 0 <= i < s.len() && (#[trigger] s[i]).0 == k
}

/// Where the entry with key `k` stands.
pub open spec fn key_index<V>(s: Seq<(Seq<char>, V)>, k: Seq<char>) -> int {
    choose|i: int| 0 <= i < s.len() && (#[trigger] s[i]).0 == k
}

/// The map that a list of entries describes.
pub open spec fn map_of<V>(s: Seq<(Seq<char>, V)>) -> Map<Seq<char>, V> {
    Map::new(|k: Seq<char>| has_key(s, k), |k: Seq<char>| s[key_index(s, k)].1)
}

/// A map from text to `V`; entries stay in the order of their first insertion.
pub struct TextMap<V> {
    list: Vec<(String, V)>,
}

spec fn viewed<V>(s: Seq<(String, V)>) -> Seq<(Seq<char>, V)> {
    s.map_values(|e: (String, V)| (e.0@, e.1))
}

impl<V> View for TextMap<V> {
    type V = Map<Seq<char>, V>;

    open spec fn view(&self) -> Map<Seq<char>, V> {
        map_of(self.entries())
    }
}

impl<V> TextMap<V> {
    #[verifier::type_invariant]
    spec fn valid(self) -> bool {
        distinct_keys(self.entries())
    }

    /// The entries in order.
    pub closed spec fn entries(self) -> Seq<(Seq<char>, V)> {
        viewed(self.list@)
    }

    pub fn new() -> (r: TextMap<V>)
        ensures
            r@ == Map::<Seq<char>, V>::empty(),
            r.entries() == Seq::<(Seq<char>, V)>::empty(),
    {
        let r = TextMap { list: Vec::new() };
        proof {
            assert(r.entries() =~= Seq::<(Seq<char>, V)>::empty());
            assert(r@ =~= Map::<Seq<char>, V>::empty());
        }
        r
    }

    /// How many entries there are; their keys differ from each other.
    pub fn len(&self) -> (r: usize)
        ensures
            r == self.entries().len(),
            distinct_keys(self.entries()),
    {
        proof {
            use_type_invariant(self);
        }
        self.list.len()
    }

    /// Whether there is no entry.
    pub fn is_empty(&self) -> (r: bool)
        ensures
            r == (self.entries().len() == 0),
            r == (self@ == Map::<Seq<char>, V>::empty()),
    {
        proof {
            if self.entries().len() == 0 {
                assert(self@ =~= Map::<Seq<char>, V>::empty());
            } else {
                assert(has_key(self.entries(), self.entries()[0].0));
                assert(self@.contains_key(self.entries()[0].0));
            }
        }
        self.list.len() == 0
    }

    /// The key of entry `i`.
    pub fn key_at(&self, i: usize) -> (r: &String)
        requires
            i < self.entries().len(),
        ensures
            r@ == self.entries()[i as int].0,
    {
        &self.list[i].0
    }

    /// The value of entry `i`.
    pub fn value_at(&self, i: usize) -> (r: &V)
        requires
            i < self.entries().len(),
        ensures
            *r == self.entries()[i as int].1,
            self@.contains_pair(self.entries()[i as int].0, *r),
    {
        proof {
            use_type_invariant(self);
            lemma_entry(self.entries(), i as int);
        }
        &self.list[i].1
    }

    fn find(&self, k: &str) -> (r: Option<usize>)
        ensures
            match r {
                Some(i) => i < self.entries().len() && self.entries()[i as int].0 == k@,
                None => !has_key(self.entries(), k@),
            },
    {
        let mut i: usize = 0;
        while i < self.list.len()
            invariant
                i <= self.list.len(),
                forall|j: int| 0 <= j < i ==> (#[trigger] self.entries()[j]).0 != k@,
            decreases self.list.len() - i,
        {
            if text::same(self.list[i].0.as_str(), k) {
                return Some(i);
            }
            i += 1;
        }
        None
    }

    /// The value for a key.
    pub fn get(&self, k: &str) -> (r: Option<&V>)
        ensures
            match r {
                Some(v) => self@.contains_key(k@) && *v == self@[k@],
                None => !self@.contains_key(k@),
            },
    {
        proof {
            use_type_invariant(self);
        }
        match self.find(k) {
            Some(i) => {
                proof {
                    lemma_entry(self.entries(), i as int);
                }
                Some(&self.list[i].1)
            },
            None => None,
        }
    }

    /// Whether the key has a value.
    pub fn contains_key(&self, k: &str) -> (r: bool)
        ensures
            r == self@.contains_key(k@),
    {
        self.find(k).is_some()
    }

    /// Sets the value for `k`, in place where `k` has one already.
    pub fn insert(&mut self, k: String, v: V)
        ensures
            final(self)@ == old(self)@.insert(k@, v),
            old(self)@.contains_key(k@) ==> final(self).entries() == old(self).entries().update(
                key_index(old(self).entries(), k@),
                (k@, v),
            ),
            !old(self)@.contains_key(k@) ==> final(self).entries() == old(self).entries().push(
                (k@, v),
            ),
    {
        proof {
            use_type_invariant(&*self);
        }
        let found = self.find(k.as_str());
        let ghost before = self.entries();
        let ghost kv = k@;
        let mut list: Vec<(String, V)> = Vec::new();
        std::mem::swap(&mut list, &mut self.list);
        match found {
            Some(i) => {
                proof {
                    lemma_entry(before, i as int);
                }
                list[i] = (k, v);
                proof {
                    assert(viewed(list@) =~= before.update(i as int, (kv, v)));
                }
            },
            None => {
                list.push((k, v));
                proof {
                    assert(viewed(list@) =~= before.push((kv, v)));
                }
            },
        }
        proof {
            lemma_insert(before, kv, v);
        }
        self.list = list;
    }

    /// Drops the entry for `k`; says whether there was one.
    pub fn remove(&mut self, k: &str) -> (r: bool)
        ensures
            r == old(self)@.contains_key(k@),
            final(self)@ == old(self)@.remove(k@),
            r ==> final(self).entries() == old(self).entries().remove(
                key_index(old(self).entries(), k@),
            ),
            !r ==> final(self).entries() == old(self).entries(),
    {
        proof {
            use_type_invariant(&*self);
        }
        let found = self.find(k);
        let ghost before = self.entries();
        match found {
            Some(i) => {
                let mut list: Vec<(String, V)> = Vec::new();
                std::mem::swap(&mut list, &mut self.list);
                proof {
                    lemma_entry(before, i as int);
                    lemma_remove(before, k@);
                }
                let _ = list.remove(i);
                proof {
                    assert(viewed(list@) =~= before.remove(i as int));
                }
                self.list = list;
                true
            },
            None => {
                proof {
                    assert(map_of(before) =~= map_of(before).remove(k@));
                }
                false
            },
        }
    }
}

impl<V> TextMap<V> {
    /// Drops the entries of all these keys.
    pub fn remove_all(&mut self, keys: &Vec<String>)
        ensures
            final(self)@ == old(self)@.remove_keys(text::views(keys@).to_set()),
    {
        let ghost all = text::views(keys@);
        let ghost before = self@;
        let mut i: usize = 0;
        assert(self@ =~= before.remove_keys(all.take(0).to_set()));
        while i < keys.len()
            invariant
                i <= keys.len(),
                all == text::views(keys@),
                self@ == before.remove_keys(all.take(i as int).to_set()),
            decreases keys.len() - i,
        {
            let _ = self.remove(keys[i].as_str());
            proof {
                all.lemma_take_succ_push(i as int);
                let a = all.take(i as int);
                let b = all.take(i + 1);
                assert(b == a.push(all[i as int]));
                assert forall|k: Seq<char>| b.to_set().contains(k) <==> a.to_set().contains(k) || k
                    == all[i as int] by {
                    if a.contains(k) {
                        let j = a.index_of(k);
                        assert(b[j] == k);
                    }
                    if b.contains(k) {
                        let j = b.index_of(k);
                        if j < i {
                            assert(a[j] == k);
                        }
                    }
                    if k == all[i as int] {
                        assert(b[i as int] == k);
                    }
                }
                assert(self@ =~= before.remove_keys(b.to_set()));
            }
            i += 1;
        }
        assert(all.take(i as int) =~= all);
    }
}

/// An entry is what the map has for its key.
pub proof fn lemma_entry<V>(s: Seq<(Seq<char>, V)>, i: int)
    requires
        distinct_keys(s),
        0 <= i < s.len(),
    ensures
        key_index(s, s[i].0) == i,
        map_of(s).contains_key(s[i].0),
        map_of(s)[s[i].0] == s[i].1,
{
    assert(has_key(s, s[i].0));
    let j = key_index(s, s[i].0);
    assert(0 <= j < s.len() && s[j].0 == s[i].0);
}

proof fn lemma_insert<V>(s: Seq<(Seq<char>, V)>, k: Seq<char>, v: V)
    requires
        distinct_keys(s),
    ensures
        ({
            let t = if has_key(s, k) {
                s.update(key_index(s, k), (k, v))
            } else {
                s.push((k, v))
            };
            distinct_keys(t) && map_of(t) == map_of(s).insert(k, v)
        }),
{
    let at = key_index(s, k);
    let t = if has_key(s, k) {
        s.update(at, (k, v))
    } else {
        s.push((k, v))
    };
    if has_key(s, k) {
        assert(0 <= at < s.len() && s[at].0 == k);
        assert(t[at] == (k, v));
    } else {
        assert(t[s.len() as int] == (k, v));
    }
    assert(distinct_keys(t)) by {
        assert forall|i: int, j: int| 0 <= i < j < t.len() implies (#[trigger] t[i]).0 != (
        #[trigger] t[j]).0 by {
            if i < s.len() {
                assert(t[i].0 == s[i].0);
            }
            if j < s.len() {
                assert(t[j].0 == s[j].0);
            }
        }
    }
    assert forall|q: Seq<char>|
        map_of(t).contains_key(q) == map_of(s).insert(k, v).contains_key(q) && (map_of(
            t,
        ).contains_key(q) ==> map_of(t)[q] == map_of(s).insert(k, v)[q]) by {
        if has_key(t, q) {
            let i = key_index(t, q);
            assert(0 <= i < t.len() && t[i].0 == q);
            if q != k {
                assert(i < s.len() && s[i] == t[i]);
                lemma_entry(s, i);
            } else {
                lemma_entry(t, if has_key(s, k) { at } else { s.len() as int });
            }
        }
        if has_key(s, q) {
            let i = key_index(s, q);
            assert(0 <= i < s.len() && s[i].0 == q);
            assert(t[i].0 == q);
        }
        if q == k {
            assert(has_key(t, k));
        }
    }
    assert(map_of(t) =~= map_of(s).insert(k, v));
}

proof fn lemma_remove<V>(s: Seq<(Seq<char>, V)>, k: Seq<char>)
    requires
        distinct_keys(s),
        has_key(s, k),
    ensures
        distinct_keys(s.remove(key_index(s, k))),
        map_of(s.remove(key_index(s, k))) == map_of(s).remove(k),
{
    let at = key_index(s, k);
    let t = s.remove(at);
    assert(0 <= at < s.len() && s[at].0 == k);
    assert(distinct_keys(t)) by {
        assert forall|i: int, j: int| 0 <= i < j < t.len() implies (#[trigger] t[i]).0 != (
        #[trigger] t[j]).0 by {
            let i2 = if i < at {
                i
            } else {
                i + 1
            };
            let j2 = if j < at {
                j
            } else {
                j + 1
            };
            assert(t[i] == s[i2] && t[j] == s[j2]);
        }
    }
    assert forall|q: Seq<char>| #[trigger]
        map_of(t).dom().contains(q) == map_of(s).remove(k).dom().contains(q) by {
        if has_key(t, q) {
            let i = key_index(t, q);
            assert(0 <= i < t.len() && t[i].0 == q);
            let j = if i < at {
                i
            } else {
                i + 1
            };
            assert(s[j] == t[i]);
            if q == k {
                assert(s[at].0 == s[j].0);
            }
        }
        if has_key(s, q) && q != k {
            let i = key_index(s, q);
            assert(0 <= i < s.len() && s[i].0 == q);
            let j = if i < at {
                i
            } else {
                i - 1
            };
            assert(t[j] == s[i]);
            assert(has_key(t, q));
        }
    }
    assert forall|q: Seq<char>| map_of(t).dom().contains(q) implies #[trigger] map_of(t)[q]
        == map_of(s).remove(k)[q] by {
        let i = key_index(t, q);
        assert(0 <= i < t.len() && t[i].0 == q);
        let j = if i < at {
            i
        } else {
            i + 1
        };
        assert(s[j] == t[i]);
        lemma_entry(s, j);
        if q == k {
            assert(s[at].0 == s[j].0);
        }
    }
    assert(map_of(t) =~= map_of(s).remove(k));
}

/// A set of texts; members stay in the order of their first insertion.
pub struct TextSet {
    map: TextMap<()>,
}

impl View for TextSet {
    type V = Set<Seq<char>>;

    open spec fn view(&self) -> Set<Seq<char>> {
        self.as_map().dom()
    }
}

impl TextSet {
    /// The members, each with nothing.
    pub closed spec fn as_map(self) -> Map<Seq<char>, ()> {
        self.map@
    }

    /// The members in order.
    pub closed spec fn members(self) -> Seq<Seq<char>> {
        self.map.entries().map_values(|e: (Seq<char>, ())| e.0)
    }

    pub fn new() -> (r: TextSet)
        ensures
            r@ == Set::<Seq<char>>::empty(),
            r.members() == Seq::<Seq<char>>::empty(),
    {
        let r = TextSet { map: TextMap::new() };
        assert(r@ =~= Set::<Seq<char>>::empty());
        assert(r.members() =~= Seq::<Seq<char>>::empty());
        r
    }

    /// Whether `k` is a member.
    pub fn contains(&self, k: &str) -> (r: bool)
        ensures
            r == self@.contains(k@),
    {
        self.map.contains_key(k)
    }

    /// Adds `k`; says whether it was new.
    pub fn insert(&mut self, k: String) -> (r: bool)
        ensures
            r == !old(self)@.contains(k@),
            final(self)@ == old(self)@.insert(k@),
            r ==> final(self).members() == old(self).members().push(k@),
            !r ==> final(self).members() == old(self).members(),
    {
        if self.map.contains_key(k.as_str()) {
            assert(self@ =~= self@.insert(k@));
            false
        } else {
            let ghost kv = k@;
            self.map.insert(k, ());
            assert(self@ =~= old(self)@.insert(kv));
            assert(self.members() =~= old(self).members().push(kv));
            true
        }
    }

    /// Drops `k`; says whether it was there.
    pub fn remove(&mut self, k: &str) -> (r: bool)
        ensures
            r == old(self)@.contains(k@),
            final(self)@ == old(self)@.remove(k@),
    {
        let r = self.map.remove(k);
        assert(self@ =~= old(self)@.remove(k@));
        r
    }

    /// How many members there are.
    pub fn len(&self) -> (r: usize)
        ensures
            r == self.members().len(),
            self.members().no_duplicates(),
            self.members().to_set() == self@,
    {
        let n = self.map.len();
        proof {
            let e = self.map.entries();
            let m = self.members();
            assert forall|k: Seq<char>| m.to_set().contains(k) == self@.contains(k) by {
                if has_key(e, k) {
                    let i = key_index(e, k);
                    assert(0 <= i < e.len() && e[i].0 == k);
                    assert(m[i] == k);
                }
                if m.contains(k) {
                    let i = m.index_of(k);
                    assert(e[i].0 == k);
                }
            }
            assert(m.to_set() =~= self@);
            assert forall|i: int, j: int| 0 <= i < m.len() && 0 <= j < m.len() && i != j implies m[i]
                != m[j] by {
                assert(m[i] == e[i].0 && m[j] == e[j].0);
            }
        }
        n
    }

    /// Member `i`.
    pub fn at(&self, i: usize) -> (r: &String)
        requires
            i < self.members().len(),
        ensures
            r@ == self.members()[i as int],
            self@.contains(r@),
    {
        proof {
            assert(has_key(self.map.entries(), self.map.entries()[i as int].0));
        }
        self.map.key_at(i)
    }
}

/// The map has exactly the pairs that are in the list, where no key is there twice.
pub proof fn law_the_map_has_what_is_listed<V>(s: Seq<(Seq<char>, V)>, k: Seq<char>, v: V)
    requires
        distinct_keys(s),
    ensures
        map_of(s).contains_pair(k, v) <==> s.contains((k, v)),
        map_of(s).contains_key(k) <==> exists|i: int| 0 <= i < s.len() && (#[trigger] s[i]).0 == k,
{
    if has_key(s, k) {
        let i = key_index(s, k);
        assert(0 <= i < s.len() && s[i].0 == k);
        if s.contains((k, v)) {
            let j = s.index_of((k, v));
            if i < j {
                assert(s[i].0 != s[j].0);
            } else if j < i {
                assert(s[j].0 != s[i].0);
            }
        }
        if map_of(s)[k] == v {
            assert(s[i] == (k, v));
        }
    }
    if s.contains((k, v)) {
        let j = s.index_of((k, v));
        assert(s[j].0 == k);
    }
}

} // verus!
