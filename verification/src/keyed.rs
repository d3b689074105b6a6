//! A small map from strings to plain values, kept as a vector of entries in
//! which each key occurs once.
use vstd::prelude::*;
use crate::text::chars_of;

verus! {

/// The map described by a sequence of key/value entries, later entries
/// winning over earlier ones with the same key.
pub open spec fn entry_map<V>(s: Seq<(Seq<char>, V)>) -> Map<Seq<char>, V>
    decreases s.len(),
{
    if s.len() == 0 {
        Map::empty()
    } else {
        entry_map(s.drop_last()).insert(s.last().0, s.last().1)
    }
}

/// No key occurs twice.
pub open spec fn unique_keys<V>(s: Seq<(Seq<char>, V)>) -> bool {
    forall|i: int, j: int| 0 <= i < j < s.len() ==> s[i].0 != s[j].0
}

pub proof fn lemma_entry_map_lookup<V>(s: Seq<(Seq<char>, V)>, i: int)
    requires
        unique_keys(s),
        0 <= i < s.len(),
    ensures
        entry_map(s).contains_key(s[i].0),
        entry_map(s)[s[i].0] == s[i].1,
    decreases s.len(),
{
    if i < s.len() - 1 {
        lemma_entry_map_lookup(s.drop_last(), i);
    }
}

pub proof fn lemma_entry_map_absent<V>(s: Seq<(Seq<char>, V)>, k: Seq<char>)
    requires
        forall|i: int| 0 <= i < s.len() ==> s[i].0 != k,
    ensures
        !entry_map(s).contains_key(k),
    decreases s.len(),
{
    if s.len() > 0 {
        lemma_entry_map_absent(s.drop_last(), k);
    }
}

/// The key set of the map is exactly the keys of the entries.
pub proof fn lemma_entry_map_keys<V>(s: Seq<(Seq<char>, V)>, k: Seq<char>)
    requires
        unique_keys(s),
    ensures
        entry_map(s).contains_key(k) <==> exists|i: int| 0 <= i < s.len() && s[i].0 == k,
{
    if exists|i: int| 0 <= i < s.len() && s[i].0 == k {
        let i = choose|i: int| 0 <= i < s.len() && s[i].0 == k;
        lemma_entry_map_lookup(s, i);
    } else {
        lemma_entry_map_absent(s, k);
    }
}

/// Two entry sequences with unique keys and the same key/value pairs at
/// the same keys describe the same map.
pub proof fn lemma_entry_map_ext<V>(s: Seq<(Seq<char>, V)>, t: Seq<(Seq<char>, V)>, m: Map<Seq<char>, V>)
    requires
        unique_keys(t),
        forall|k: Seq<char>| m.contains_key(k) <==> exists|i: int| 0 <= i < t.len() && t[i].0 == k,
        forall|i: int| 0 <= i < t.len() ==> m.contains_key(t[i].0) && m[t[i].0] == t[i].1,
    ensures
        entry_map(t) == m,
{
    assert forall|k: Seq<char>| #[trigger] entry_map(t).contains_key(k) <==> m.contains_key(k) by {
        lemma_entry_map_keys(t, k);
    }
    assert forall|k: Seq<char>| entry_map(t).contains_key(k) implies #[trigger] entry_map(t)[k] == m[k] by {
        lemma_entry_map_keys(t, k);
        let i = choose|i: int| 0 <= i < t.len() && t[i].0 == k;
        lemma_entry_map_lookup(t, i);
    }
    assert(entry_map(t) =~= m);
}

/// The keys named by a list of strings.
pub open spec fn key_set(keys: Seq<String>) -> Set<Seq<char>> {
    Set::new(|k: Seq<char>| exists|i: int| 0 <= i < keys.len() && keys[i]@ == k)
}

/// Whether two strings are equal, character by character.
pub fn str_eq(a: &str, b: &str) -> (r: bool)
    ensures
        r == (a@ == b@),
{
    let x = chars_of(a);
    let y = chars_of(b);
    if x.len() != y.len() {
        return false;
    }
    let mut i: usize = 0;
    while i < x.len()
        invariant
            x@ == a@,
            y@ == b@,
            x.len() == y.len(),
            i <= x.len(),
            forall|j: int| 0 <= j < i ==> x@[j] == y@[j],
        decreases x.len() - i,
    {
        if x[i] != y[i] {
            return false;
        }
        i += 1;
    }
    proof {
        assert(x@ =~= y@);
    }
    true
}

/// Map from strings to values; each key occurs once, in insertion order.
pub struct StrKeyMap<V> {
    data: Vec<(String, V)>,
}

/// The entries of a vector of (string, value) pairs, keys as character
/// sequences.
pub open spec fn keyed_entries<V>(v: Seq<(String, V)>) -> Seq<(Seq<char>, V)> {
    v.map_values(|e: (String, V)| (e.0@, e.1))
}

impl<V> StrKeyMap<V> {
    /// The entries in insertion order.
    pub closed spec fn entries(&self) -> Seq<(Seq<char>, V)> {
        keyed_entries(self.data@)
    }

    #[verifier::type_invariant]
    closed spec fn inv(&self) -> bool {
        unique_keys(self.entries())
    }
}

impl<V> View for StrKeyMap<V> {
    type V = Map<Seq<char>, V>;

    closed spec fn view(&self) -> Map<Seq<char>, V> {
        entry_map(self.entries())
    }
}

impl<V: Copy> StrKeyMap<V> {
    /// An empty map.
    pub fn new() -> (m: Self)
        ensures
            m@ == Map::<Seq<char>, V>::empty(),
            m.entries().len() == 0,
    {
        let m = StrKeyMap { data: Vec::new() };
        assert(m.entries() =~= Seq::<(Seq<char>, V)>::empty());
        m
    }

    fn find(&self, key: &str) -> (r: Option<usize>)
        ensures
            match r {
                Some(i) => i < self.entries().len() && self.entries()[i as int].0 == key@,
                None => forall|i: int| 0 <= i < self.entries().len() ==> self.entries()[i].0 != key@,
            },
    {
        let mut i: usize = 0;
        while i < self.data.len()
            invariant
                i <= self.data.len(),
                self.entries() == keyed_entries(self.data@),
                forall|j: int| 0 <= j < i ==> self.entries()[j].0 != key@,
            decreases self.data.len() - i,
        {
            if str_eq(self.data[i].0.as_str(), key) {
                return Some(i);
            }
            i += 1;
        }
        None
    }

    /// The value stored under `key`.
    pub fn get(&self, key: &str) -> (r: Option<V>)
        ensures
            r == (if self@.contains_key(key@) {
                Some(self@[key@])
            } else {
                None
            }),
    {
        proof {
            use_type_invariant(self);
        }
        match self.find(key) {
            Some(i) => {
                proof {
                    lemma_entry_map_lookup(self.entries(), i as int);
                }
                Some(self.data[i].1)
            },
            None => {
                proof {
                    lemma_entry_map_absent(self.entries(), key@);
                }
                None
            },
        }
    }

    /// Whether no key is stored.
    pub fn is_empty(&self) -> (r: bool)
        ensures
            r == (self@ == Map::<Seq<char>, V>::empty()),
    {
        proof {
            use_type_invariant(self);
            if self.entries().len() > 0 {
                lemma_entry_map_lookup(self.entries(), 0);
                assert(self@.contains_key(self.entries()[0].0));
            } else {
                assert(self@ =~= Map::<Seq<char>, V>::empty());
            }
        }
        self.data.len() == 0
    }

    /// Number of keys stored.
    pub fn len(&self) -> (r: usize)
        ensures
            r == self.entries().len(),
    {
        self.data.len()
    }

    /// Set `key` to `value`, replacing an earlier value of the same key.
    pub fn insert(&mut self, key: String, value: V)
        ensures
            final(self)@ == old(self)@.insert(key@, value),
    {
        let mut this = Self::new();
        std::mem::swap(self, &mut this);
        proof {
            use_type_invariant(&this);
        }
        let found = this.find(key.as_str());
        let ghost old_entries = this.entries();
        let mut data = this.data;
        match found {
            Some(i) => {
                data.set(i, (key, value));
                proof {
                    let t = keyed_entries(data@);
                    assert(t =~= old_entries.update(i as int, (old_entries[i as int].0, value)));
                    assert(unique_keys(t));
                    let m = entry_map(old_entries).insert(key@, value);
                    assert forall|k: Seq<char>| m.contains_key(k) <==> exists|j: int|
                        0 <= j < t.len() && t[j].0 == k by {
                        lemma_entry_map_keys(old_entries, k);
                        if exists|j: int| 0 <= j < old_entries.len() && old_entries[j].0 == k {
                            let j = choose|j: int| 0 <= j < old_entries.len() && old_entries[j].0 == k;
                            assert(t[j].0 == k);
                        }
                    }
                    assert forall|j: int| 0 <= j < t.len() implies m.contains_key(t[j].0) && m[t[j].0]
                        == t[j].1 by {
                        lemma_entry_map_lookup(old_entries, j);
                    }
                    lemma_entry_map_ext(old_entries, t, m);
                }
                *self = StrKeyMap { data };
            },
            None => {
                data.push((key, value));
                proof {
                    let t = keyed_entries(data@);
                    assert(t =~= old_entries.push((key@, value)));
                    assert(t.drop_last() =~= old_entries);
                    assert(unique_keys(t));
                }
                *self = StrKeyMap { data };
            },
        }
    }

    /// Remove every key.
    pub fn clear(&mut self)
        ensures
            final(self)@ == Map::<Seq<char>, V>::empty(),
            final(self).entries().len() == 0,
    {
        *self = Self::new();
    }

    /// Keep only the keys listed in `keep`.
    pub fn retain_keys(&mut self, keep: &Vec<String>)
        ensures
            final(self)@ == old(self)@.restrict(key_set(keep@)),
    {
        let mut this = Self::new();
        std::mem::swap(self, &mut this);
        proof {
            use_type_invariant(&this);
        }
        let ghost old_entries = this.entries();
        let ghost keepset = key_set(keep@);
        let mut data: Vec<(String, V)> = Vec::new();
        let mut i: usize = 0;
        proof {
            assert(old_entries.take(0) =~= Seq::<(Seq<char>, V)>::empty());
            assert(entry_map(keyed_entries(data@)) =~= entry_map(old_entries.take(0)).restrict(keepset));
        }
        while i < this.data.len()
            invariant
                i <= this.data.len(),
                old_entries == this.entries(),
                old_entries == keyed_entries(this.data@),
                unique_keys(old_entries),
                keepset == key_set(keep@),
                unique_keys(keyed_entries(data@)),
                forall|j: int| 0 <= j < data.len() ==> #[trigger] entry_map(old_entries.take(i as int)).contains_key(keyed_entries(data@)[j].0),
                entry_map(keyed_entries(data@)) == entry_map(old_entries.take(i as int)).restrict(keepset),
            decreases this.data.len() - i,
        {
            let mut keep_it = false;
            let mut j: usize = 0;
            while j < keep.len()
                invariant
                    j <= keep.len(),
                    i < this.data.len(),
                    keep_it == exists|m: int| 0 <= m < j && keep@[m]@ == this.data@[i as int].0@,
                decreases keep.len() - j,
            {
                if str_eq(keep[j].as_str(), this.data[i].0.as_str()) {
                    keep_it = true;
                }
                j += 1;
            }
            let ghost e = old_entries[i as int];
            let ghost prefix = old_entries.take(i as int);
            proof {
                assert(old_entries.take(i + 1) =~= prefix.push(e));
                assert(old_entries.take(i + 1).drop_last() =~= prefix);
                assert(keepset.contains(e.0) == keep_it);
                assert forall|m: int| 0 <= m < prefix.len() implies prefix[m].0 != e.0 by {
                    assert(prefix[m] == old_entries[m]);
                }
                lemma_entry_map_absent(prefix, e.0);
            }
            if keep_it {
                let k = this.data[i].0.clone();
                let ghost before = keyed_entries(data@);
                data.push((k, this.data[i].1));
                proof {
                    let t = keyed_entries(data@);
                    assert(t =~= before.push(e));
                    assert(t.drop_last() =~= before);
                    assert forall|a: int, b: int| 0 <= a < b < t.len() implies t[a].0 != t[b].0 by {
                        if b == t.len() - 1 {
                            assert(entry_map(prefix).contains_key(before[a].0));
                        }
                    }
                    assert(entry_map(t) =~= entry_map(old_entries.take(i + 1)).restrict(keepset));
                }
            } else {
                proof {
                    assert(entry_map(keyed_entries(data@)) =~= entry_map(old_entries.take(i + 1)).restrict(keepset));
                }
            }
            i += 1;
        }
        proof {
            assert(old_entries.take(this.data.len() as int) =~= old_entries);
        }
        *self = StrKeyMap { data };
    }

    /// A copy of the map.
    pub fn duplicate(&self) -> (c: Self)
        ensures
            c@ == self@,
            c.entries() == self.entries(),
    {
        proof {
            use_type_invariant(self);
        }
        let mut data: Vec<(String, V)> = Vec::new();
        let mut i: usize = 0;
        while i < self.data.len()
            invariant
                i <= self.data.len(),
                keyed_entries(data@) =~= self.entries().take(i as int),
                self.entries() == keyed_entries(self.data@),
            decreases self.data.len() - i,
        {
            let k = self.data[i].0.clone();
            let ghost before = data@;
            data.push((k, self.data[i].1));
            proof {
                assert(keyed_entries(data@) =~= keyed_entries(before).push(self.entries()[i as int]));
                assert(self.entries().take(i + 1) =~= self.entries().take(i as int).push(self.entries()[i as int]));
            }
            i += 1;
        }
        proof {
            assert(self.entries().take(self.data.len() as int) =~= self.entries());
        }
        StrKeyMap { data }
    }

    /// The entries in insertion order.
    pub fn to_vec(&self) -> (r: Vec<(String, V)>)
        ensures
            keyed_entries(r@) == self.entries(),
    {
        let c = self.duplicate();
        let StrKeyMap { data } = c;
        data
    }
}

} // verus!
