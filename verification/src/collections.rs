//! A set of strings, and counts of how often strings occur.

use crate::split;
use crate::text::same_text;
use vstd::hash_map::StringHashMap;
use vstd::hash_set::StringHashSet;
use vstd::prelude::*;

verus! {

/// The items of a set with an index for fast lookup.
struct SetItems {
    items: Vec<String>,
    index: StringHashSet,
}

impl SetItems {
    spec fn wf(&self) -> bool {
        &&& split::texts(self.items@).no_duplicates()
        &&& self.index@ == split::texts(self.items@).to_set()
    }
}

/// A set of strings. The strings are kept in the order in which they came.
pub struct StringSet {
    inner: SetItems,
}

impl View for StringSet {
    type V = Set<Seq<char>>;

    closed spec fn view(&self) -> Set<Seq<char>> {
        self.inner.index@
    }
}

impl StringSet {
    #[verifier::type_invariant]
    spec fn type_inv(self) -> bool {
        self.inner.wf()
    }

    /// The empty set.
    pub fn new() -> (r: Self)
        ensures
            r@ == Set::<Seq<char>>::empty(),
    {
        let items: Vec<String> = Vec::new();
        let index = StringHashSet::new();
        assert(split::texts(items@).to_set() == Set::<Seq<char>>::empty());
        StringSet { inner: SetItems { items, index } }
    }

    /// The set of the given strings.
    pub fn from_texts(texts: &Vec<String>) -> (r: Self)
        ensures
            r@ == split::texts(texts@).to_set(),
    {
        let mut r = StringSet::new();
        let n: usize = texts.len();
        assert(split::texts(texts@).take(0).to_set() == Set::<Seq<char>>::empty());
        for i in 0..n
            invariant
                n == texts@.len(),
                r@ == split::texts(texts@).take(i as int).to_set(),
        {
            let ghost all = split::texts(texts@);
            r.insert(texts[i].clone());
            assert(all.take(i + 1) == all.take(i as int).push(all[i as int]));
            proof {
                lemma_to_set_push(all.take(i as int), all[i as int]);
            }
        }
        assert(split::texts(texts@).take(n as int) == split::texts(texts@));
        r
    }

    /// Whether the set holds the string.
    pub fn contains(&self, s: &str) -> (r: bool)
        ensures
            r == self@.contains(s@),
    {
        self.inner.index.contains(s)
    }

    /// Whether the set holds nothing.
    pub fn is_empty(&self) -> (r: bool)
        ensures
            r == (self@ == Set::<Seq<char>>::empty()),
    {
        proof {
            use_type_invariant(self);
        }
        let ghost all = split::texts(self.inner.items@);
        if self.inner.items.len() == 0 {
            assert(all.to_set() == Set::<Seq<char>>::empty());
            true
        } else {
            assert(all.to_set().contains(all[0]));
            false
        }
    }

    /// Number of strings in the set.
    pub fn len(&self) -> (r: usize)
        ensures
            r == self@.len(),
    {
        proof {
            use_type_invariant(self);
            split::texts(self.inner.items@).unique_seq_to_set();
        }
        self.inner.items.len()
    }

    /// The strings of the set, each once.
    pub fn items(&self) -> (r: &Vec<String>)
        ensures
            split::texts(r@).no_duplicates(),
            split::texts(r@).to_set() == self@,
    {
        proof {
            use_type_invariant(self);
        }
        &self.inner.items
    }

    /// Puts a string into the set.
    pub fn insert(&mut self, s: String)
        ensures
            final(self)@ == old(self)@.insert(s@),
    {
        proof {
            use_type_invariant(&*self);
        }
        let mut fresh = StringSet::new();
        std::mem::swap(self, &mut fresh);
        let SetItems { mut items, mut index } = fresh.inner;
        if !index.contains(s.as_str()) {
            let ghost before = split::texts(items@);
            index.insert(s.clone());
            items.push(s);
            assert(split::texts(items@) == before.push(s@));
            proof {
                lemma_to_set_push(before, s@);
            }
            assert(split::texts(items@).no_duplicates()) by {
                assert(!before.to_set().contains(s@));
                assert forall|i: int| 0 <= i < before.len() implies before[i] != s@ by {
                    assert(before.contains(before[i]));
                }
            }
        } else {
            assert(old(self)@.insert(s@) == old(self)@);
        }
        *self = StringSet { inner: SetItems { items, index } };
    }

    /// Takes a string out of the set, if it is there.
    pub fn remove(&mut self, s: &str)
        ensures
            final(self)@ == old(self)@.remove(s@),
    {
        proof {
            use_type_invariant(&*self);
        }
        let mut fresh = StringSet::new();
        std::mem::swap(self, &mut fresh);
        let SetItems { mut items, mut index } = fresh.inner;
        let ghost before = split::texts(items@);
        let mut i: usize = 0;
        while i < items.len() && !same_text(items[i].as_str(), s)
            invariant
                i <= items@.len(),
                before == split::texts(items@),
                forall|j: int| 0 <= j < i ==> before[j] != s@,
            decreases items@.len() - i,
        {
            assert(before[i as int] != s@);
            i = i + 1;
        }
        if i < items.len() {
            items.remove(i);
            index.remove(s);
            assert(before[i as int] == s@);
            assert(split::texts(items@) == before.remove(i as int));
            proof {
                lemma_to_set_remove(before, i as int);
            }
        } else {
            assert(!before.contains(s@));
            assert(old(self)@.remove(s@) == old(self)@);
        }
        *self = StringSet { inner: SetItems { items, index } };
    }

    /// Takes everything out of the set.
    pub fn clear(&mut self)
        ensures
            final(self)@ == Set::<Seq<char>>::empty(),
    {
        *self = StringSet::new();
    }
}

impl Clone for StringSet {
    fn clone(&self) -> (r: Self)
        ensures
            r@ == self@,
    {
        StringSet::from_texts(self.items())
    }
}

/// One more item in a sequence is one more element of its set.
pub proof fn lemma_to_set_push(s: Seq<Seq<char>>, x: Seq<char>)
    ensures
        s.push(x).to_set() == s.to_set().insert(x),
{
    let t = s.push(x);
    assert forall|e: Seq<char>| t.to_set().contains(e) == s.to_set().insert(x).contains(e) by {
        if s.contains(e) {
            let i = choose|i: int| 0 <= i < s.len() && s[i] == e;
            assert(t[i] == e);
        }
        if t.contains(e) && e != x {
            let i = choose|i: int| 0 <= i < t.len() && t[i] == e;
            assert(s[i] == e);
        }
        assert(t[s.len() as int] == x);
    }
    assert(t.to_set() =~= s.to_set().insert(x));
}

/// One item less in a sequence without duplicates is one element less of its set.
proof fn lemma_to_set_remove(s: Seq<Seq<char>>, i: int)
    requires
        0 <= i < s.len(),
        s.no_duplicates(),
    ensures
        s.remove(i).no_duplicates(),
        s.remove(i).to_set() == s.to_set().remove(s[i]),
{
    let t = s.remove(i);
    assert forall|e: Seq<char>| t.to_set().contains(e) == s.to_set().remove(s[i]).contains(e) by {
        if t.contains(e) {
            let j = choose|j: int| 0 <= j < t.len() && t[j] == e;
            if j < i {
                assert(s[j] == e);
            } else {
                assert(s[j + 1] == e);
            }
        }
        if s.contains(e) && e != s[i] {
            let j = choose|j: int| 0 <= j < s.len() && s[j] == e;
            if j < i {
                assert(t[j] == e);
            } else {
                assert(t[j - 1] == e);
            }
        }
    }
    assert(t.to_set() =~= s.to_set().remove(s[i]));
}

/// The keys with their counts, and an index from key to position.
struct CountItems {
    keys: Vec<String>,
    counts: Vec<usize>,
    index: StringHashMap<usize>,
}

impl CountItems {
    spec fn wf(&self) -> bool {
        &&& self.keys@.len() == self.counts@.len()
        &&& forall|i: int|
            0 <= i < self.keys@.len() ==> self.index@.contains_key(#[trigger] self.keys@[i]@)
                && self.index@[self.keys@[i]@] == i
        &&& forall|k: Seq<char>| #[trigger]
            self.index@.contains_key(k) ==> self.index@[k] < self.keys@.len()
                && self.keys@[self.index@[k] as int]@ == k
    }

    spec fn as_map(&self) -> Map<Seq<char>, nat> {
        Map::new(
            |k: Seq<char>| self.index@.contains_key(k),
            |k: Seq<char>| self.counts@[self.index@[k] as int] as nat,
        )
    }
}

/// How often each of some strings occurred.
pub struct Counts {
    inner: CountItems,
}

impl View for Counts {
    type V = Map<Seq<char>, nat>;

    closed spec fn view(&self) -> Map<Seq<char>, nat> {
        self.inner.as_map()
    }
}

impl Counts {
    #[verifier::type_invariant]
    spec fn type_inv(self) -> bool {
        self.inner.wf()
    }

    /// No counts.
    pub fn new() -> (r: Self)
        ensures
            r@ == Map::<Seq<char>, nat>::empty(),
    {
        let inner = CountItems {
            keys: Vec::new(),
            counts: Vec::new(),
            index: StringHashMap::new(),
        };
        assert(inner.as_map() =~= Map::<Seq<char>, nat>::empty());
        Counts { inner }
    }

    /// The count of a string, if it occurred.
    pub fn get(&self, key: &str) -> (r: Option<usize>)
        ensures
            match r {
                Some(n) => self@.contains_key(key@) && n == self@[key@],
                None => !self@.contains_key(key@),
            },
    {
        proof {
            use_type_invariant(self);
        }
        match self.inner.index.get(key) {
            Some(i) => Some(self.inner.counts[*i]),
            None => None,
        }
    }

    /// Whether nothing was counted.
    pub fn is_empty(&self) -> (r: bool)
        ensures
            r == (self@ == Map::<Seq<char>, nat>::empty()),
    {
        proof {
            use_type_invariant(self);
        }
        if self.inner.keys.len() == 0 {
            assert(self@ =~= Map::<Seq<char>, nat>::empty());
            true
        } else {
            assert(self@.contains_key(self.inner.keys@[0]@));
            false
        }
    }

    /// The strings that were counted, each once.
    pub fn keys(&self) -> (r: &Vec<String>)
        ensures
            split::texts(r@).no_duplicates(),
            forall|k: Seq<char>| #[trigger] self@.contains_key(k) == split::texts(r@).contains(k),
    {
        proof {
            use_type_invariant(self);
        }
        let ghost all = split::texts(self.inner.keys@);
        proof {
            assert forall|i: int, j: int|
                0 <= i < all.len() && 0 <= j < all.len() && i != j implies all[i] != all[j] by {
                assert(self.inner.index@[self.inner.keys@[i]@] == i);
                assert(self.inner.index@[self.inner.keys@[j]@] == j);
            }
            assert forall|k: Seq<char>| #[trigger] self@.contains_key(k) == all.contains(k) by {
                if self@.contains_key(k) {
                    let i = self.inner.index@[k] as int;
                    assert(all[i] == k);
                }
                if all.contains(k) {
                    let i = choose|i: int| 0 <= i < all.len() && all[i] == k;
                    assert(self.inner.index@.contains_key(self.inner.keys@[i]@));
                }
            }
        }
        &self.inner.keys
    }

    /// Counts one more occurrence of `key`.
    pub fn bump(&mut self, key: &str)
        requires
            old(self)@.contains_key(key@) ==> old(self)@[key@] < usize::MAX,
        ensures
            final(self)@ == old(self)@.insert(
                key@,
                if old(self)@.contains_key(key@) {
                    old(self)@[key@] + 1
                } else {
                    1
                },
            ),
    {
        proof {
            use_type_invariant(&*self);
        }
        let mut fresh = Counts::new();
        std::mem::swap(self, &mut fresh);
        let CountItems { mut keys, mut counts, mut index } = fresh.inner;
        let found: Option<usize> = match index.get(key) {
            Some(i) => Some(*i),
            None => None,
        };
        match found {
            Some(i) => {
                let n: usize = counts[i];
                counts.set(i, n + 1);
            },
            None => {
                let i: usize = keys.len();
                keys.push(key.to_string());
                counts.push(1);
                index.insert(key.to_string(), i);
            },
        }
        let inner = CountItems { keys, counts, index };
        assert(inner.wf());
        *self = Counts { inner };
        assert(self@ =~= old(self)@.insert(
            key@,
            if old(self)@.contains_key(key@) {
                old(self)@[key@] + 1
            } else {
                1
            },
        ));
    }

    /// Forgets all counts.
    pub fn clear(&mut self)
        ensures
            final(self)@ == Map::<Seq<char>, nat>::empty(),
    {
        *self = Counts::new();
    }
}

} // verus!
