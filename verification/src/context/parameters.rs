use vstd::prelude::*;

use super::maybe_utf8::{MaybeUtf8, lossy_text};
use crate::utils::bytes_eq;

verus! {

/// A map from byte strings to byte strings, with extra functionality for
/// value lookup. Anything that can be represented as a byte slice can be
/// used as a key.
#[derive(Debug)]
pub struct Parameters {
    entries: Vec<(MaybeUtf8, MaybeUtf8)>,
}

/// The position of a key among the entries, if it is there.
pub open spec fn entry_index(entries: Seq<(MaybeUtf8, MaybeUtf8)>, key: Seq<u8>) -> int {
    choose|i: int| 0 <= i < entries.len() && entries[i].0@ == key
}

/// The map that a sequence of entries with distinct keys stands for.
pub open spec fn entries_map(entries: Seq<(MaybeUtf8, MaybeUtf8)>) -> Map<Seq<u8>, Seq<u8>> {
    Map::new(
        |k: Seq<u8>| exists|i: int| 0 <= i < entries.len() && entries[i].0@ == k,
        |k: Seq<u8>| entries[entry_index(entries, k)].1@,
    )
}

/// No key occurs twice.
pub open spec fn distinct_keys(entries: Seq<(MaybeUtf8, MaybeUtf8)>) -> bool {
    forall|i: int, j: int|
        0 <= i < entries.len() && 0 <= j < entries.len() && i != j ==> entries[i].0@
            != entries[j].0@
}

impl View for Parameters {
    type V = Map<Seq<u8>, Seq<u8>>;

    closed spec fn view(&self) -> Map<Seq<u8>, Seq<u8>> {
        entries_map(self.entries@)
    }
}

proof fn lemma_lookup(entries: Seq<(MaybeUtf8, MaybeUtf8)>, i: int)
    requires
        distinct_keys(entries),
        0 <= i < entries.len(),
    ensures
        entries_map(entries).dom().contains(entries[i].0@),
        entries_map(entries)[entries[i].0@] == entries[i].1@,
        entry_index(entries, entries[i].0@) == i,
{
    let k = entries[i].0@;
    assert(exists|j: int| 0 <= j < entries.len() && entries[j].0@ == k);
    let j = entry_index(entries, k);
    assert(j == i);
}

/// Replacing the value of one entry replaces that key's value in the map.
proof fn lemma_set_value(entries: Seq<(MaybeUtf8, MaybeUtf8)>, i: int, v: MaybeUtf8)
    requires
        distinct_keys(entries),
        0 <= i < entries.len(),
    ensures
        distinct_keys(entries.update(i, (entries[i].0, v))),
        entries_map(entries.update(i, (entries[i].0, v))) == entries_map(entries).insert(entries[i].0@, v@),
{
    let new_entries = entries.update(i, (entries[i].0, v));
    let kv = entries[i].0@;
    assert(distinct_keys(new_entries)) by {
        assert forall|a: int, b: int| 0 <= a < new_entries.len() && 0 <= b < new_entries.len() && a != b
            implies new_entries[a].0@ != new_entries[b].0@ by {
            assert(new_entries[a].0 == entries[a].0);
            assert(new_entries[b].0 == entries[b].0);
        }
    }
    assert forall|k: Seq<u8>| #[trigger] entries_map(new_entries).dom().contains(k)
        <==> entries_map(entries).insert(kv, v@).dom().contains(k) by {
        if entries_map(entries).dom().contains(k) {
            let j = choose|j: int| 0 <= j < entries.len() && entries[j].0@ == k;
            assert(new_entries[j].0@ == k);
        }
        if entries_map(new_entries).dom().contains(k) {
            let j = choose|j: int| 0 <= j < new_entries.len() && new_entries[j].0@ == k;
            assert(entries[j].0@ == k);
        }
    }
    assert forall|k: Seq<u8>| #[trigger] entries_map(new_entries).dom().contains(k)
        implies entries_map(new_entries)[k] == entries_map(entries).insert(kv, v@)[k] by {
        let j = choose|j: int| 0 <= j < new_entries.len() && new_entries[j].0@ == k;
        lemma_lookup(new_entries, j);
        assert(entries[j].0 == new_entries[j].0);
        lemma_lookup(entries, j);
    }
    assert(entries_map(new_entries) =~= entries_map(entries).insert(kv, v@));
}

/// The keys of entries with distinct keys are the map's domain, as many as
/// there are entries.
proof fn lemma_keys(entries: Seq<(MaybeUtf8, MaybeUtf8)>)
    requires
        distinct_keys(entries),
    ensures
        entries_map(entries).dom().finite(),
        entries_map(entries).dom().len() == entries.len(),
{
    let keys = entries.map_values(|e: (MaybeUtf8, MaybeUtf8)| e.0@);
    assert(keys.no_duplicates());
    keys.unique_seq_to_set();
    assert(keys.to_set() =~= entries_map(entries).dom()) by {
        assert forall|k: Seq<u8>| keys.to_set().contains(k) implies entries_map(entries).dom().contains(k) by {
            let i = choose|i: int| 0 <= i < keys.len() && keys[i] == k;
            assert(entries[i].0@ == k);
        }
        assert forall|k: Seq<u8>| entries_map(entries).dom().contains(k) implies keys.to_set().contains(k) by {
            let i = choose|i: int| 0 <= i < entries.len() && entries[i].0@ == k;
            assert(keys[i] == k);
        }
    }
}

impl Parameters {
    /// The keys are distinct.
    pub closed spec fn wf(&self) -> bool {
        distinct_keys(self.entries@)
    }

    /// Every stored value keeps its invariant: only invalid UTF-8 is
    /// `NotUtf8`.
    pub closed spec fn values_inv(&self) -> bool {
        forall|i: int| 0 <= i < self.entries@.len() ==> (#[trigger] self.entries@[i]).1.inv()
    }

    /// The parameters are finitely many.
    pub proof fn lemma_finite(&self)
        requires
            self.wf(),
        ensures
            self@.dom().finite(),
    {
        lemma_keys(self.entries@);
    }

    /// Create an empty `Parameters`.
    pub fn new() -> (r: Parameters)
        ensures
            r.wf(),
            r.values_inv(),
            r@ == Map::<Seq<u8>, Seq<u8>>::empty(),
    {
        let r = Parameters { entries: Vec::new() };
        assert(r@ =~= Map::<Seq<u8>, Seq<u8>>::empty());
        r
    }

    fn find(&self, key: &[u8]) -> (r: Option<usize>)
        requires
            self.wf(),
        ensures
            match r {
                Some(i) => i < self.entries@.len() && self.entries@[i as int].0@ == key@,
                None => forall|j: int|
                    0 <= j < self.entries@.len() ==> self.entries@[j].0@ != key@,
            },
    {
        let mut i: usize = 0;
        while i < self.entries.len()
            invariant
                0 <= i <= self.entries@.len(),
                forall|j: int| 0 <= j < i ==> self.entries@[j].0@ != key@,
            decreases self.entries@.len() - i,
        {
            if bytes_eq(self.entries[i].0.as_bytes(), key) {
                return Some(i);
            }
            i = i + 1;
        }
        None
    }

    /// The number of parameters.
    pub fn len(&self) -> (r: usize)
        requires
            self.wf(),
        ensures
            r == self@.dom().len(),
    {
        proof {
            lemma_keys(self.entries@);
        }
        self.entries.len()
    }

    /// Check if there are no parameters.
    pub fn is_empty(&self) -> (r: bool)
        requires
            self.wf(),
        ensures
            r <==> self@.dom().len() == 0,
    {
        self.len() == 0
    }

    /// Get a parameter as a UTF-8 string. A lossy conversion is performed
    /// if it's not encoded as UTF-8. Use `get_raw` to get the raw bytes.
    pub fn get(&self, key: &[u8]) -> (r: Option<String>)
        requires
            self.wf(),
        ensures
            r is Some <==> self@.dom().contains(key@),
            r matches Some(s) ==> s@ == lossy_text(self@[key@]),
    {
        match self.find(key) {
            Some(i) => {
                proof {
                    lemma_lookup(self.entries@, i as int);
                }
                Some(self.entries[i].1.as_utf8_lossy())
            },
            None => None,
        }
    }

    /// Get a parameter that may or may not be a UTF-8 string.
    pub fn get_raw(&self, key: &[u8]) -> (r: Option<&MaybeUtf8>)
        requires
            self.wf(),
        ensures
            r is Some <==> self@.dom().contains(key@),
            r matches Some(v) ==> v@ == self@[key@] && (self.values_inv() ==> v.inv()),
    {
        match self.find(key) {
            Some(i) => {
                proof {
                    lemma_lookup(self.entries@, i as int);
                }
                Some(&self.entries[i].1)
            },
            None => None,
        }
    }

    /// Returns true if a parameter with the given key exists.
    pub fn contains_key(&self, key: &[u8]) -> (r: bool)
        requires
            self.wf(),
        ensures
            r <==> self@.dom().contains(key@),
    {
        match self.find(key) {
            Some(i) => {
                proof {
                    lemma_lookup(self.entries@, i as int);
                }
                true
            },
            None => false,
        }
    }

    /// Insert a parameter, returning the value it replaced.
    pub fn insert(&mut self, key: MaybeUtf8, value: MaybeUtf8) -> (r: Option<MaybeUtf8>)
        requires
            old(self).wf(),
        ensures
            final(self).wf(),
            final(self)@ == old(self)@.insert(key@, value@),
            old(self).values_inv() && value.inv() ==> final(self).values_inv(),
            r is Some <==> old(self)@.dom().contains(key@),
            r matches Some(v) ==> v@ == old(self)@[key@],
    {
        let ghost old_entries = self.entries@;
        match self.find(key.as_bytes()) {
            Some(i) => {
                proof {
                    lemma_lookup(old_entries, i as int);
                }
                let ghost kv = key@;
                let ghost vv = value@;
                let mut tmp = (key, value);
                std::mem::swap(&mut self.entries[i], &mut tmp);
                let (_, old_value) = tmp;
                proof {
                    let new_entries = self.entries@;
                    assert(new_entries[i as int].0@ == kv && new_entries[i as int].1@ == vv);
                    assert(forall|j: int| 0 <= j < new_entries.len() && j != i ==> new_entries[j] == old_entries[j]);
                    assert(distinct_keys(new_entries));
                    assert(self@ =~= entries_map(old_entries).insert(kv, vv)) by {
                        assert forall|k: Seq<u8>| #[trigger] entries_map(new_entries).dom().contains(k)
                            <==> entries_map(old_entries).insert(kv, vv).dom().contains(k) by {
                            if entries_map(old_entries).dom().contains(k) {
                                let j = choose|j: int| 0 <= j < old_entries.len() && old_entries[j].0@ == k;
                                assert(new_entries[j].0@ == k);
                            }
                            if entries_map(new_entries).dom().contains(k) {
                                let j = choose|j: int| 0 <= j < new_entries.len() && new_entries[j].0@ == k;
                                assert(old_entries[j].0@ == k);
                            }
                        }
                        assert forall|k: Seq<u8>| #[trigger] entries_map(new_entries).dom().contains(k)
                            implies entries_map(new_entries)[k] == entries_map(old_entries).insert(kv, vv)[k] by {
                            let j = choose|j: int| 0 <= j < new_entries.len() && new_entries[j].0@ == k;
                            lemma_lookup(new_entries, j);
                            lemma_lookup(old_entries, j);
                        }
                    }
                }
                Some(old_value)
            },
            None => {
                let ghost kv = key@;
                let ghost vv = value@;
                self.entries.push((key, value));
                proof {
                    let new_entries = self.entries@;
                    assert(distinct_keys(new_entries));
                    assert forall|k: Seq<u8>| #[trigger] entries_map(new_entries).dom().contains(k)
                        <==> entries_map(old_entries).insert(kv, vv).dom().contains(k) by {
                        if entries_map(old_entries).dom().contains(k) && k != kv {
                            let j = choose|j: int| 0 <= j < old_entries.len() && old_entries[j].0@ == k;
                            assert(new_entries[j].0@ == k);
                        }
                        if k == kv {
                            assert(new_entries[old_entries.len() as int].0@ == k);
                        }
                        if entries_map(new_entries).dom().contains(k) && k != kv {
                            let j = choose|j: int| 0 <= j < new_entries.len() && new_entries[j].0@ == k;
                            assert(old_entries[j].0@ == k);
                        }
                    }
                    assert forall|k: Seq<u8>| #[trigger] entries_map(new_entries).dom().contains(k)
                        implies entries_map(new_entries)[k] == entries_map(old_entries).insert(kv, vv)[k] by {
                        let j = choose|j: int| 0 <= j < new_entries.len() && new_entries[j].0@ == k;
                        lemma_lookup(new_entries, j);
                        if j < old_entries.len() {
                            lemma_lookup(old_entries, j);
                        }
                    }
                    assert(self@ =~= entries_map(old_entries).insert(kv, vv));
                }
                None
            },
        }
    }

    /// Get a mutable parameter that may or may not be a UTF-8 string. What is
    /// written through it becomes the parameter's value.
    pub fn get_mut(&mut self, key: &[u8]) -> (r: Option<&mut MaybeUtf8>)
        requires
            old(self).wf(),
        ensures
            r is Some <==> old(self)@.dom().contains(key@),
            r matches Some(v) ==> {
                &&& (*v)@ == old(self)@[key@]
                &&& final(self).wf()
                &&& final(self)@ == old(self)@.insert(key@, (*final(v))@)
                &&& (old(self).values_inv() ==> (*v).inv())
                &&& (old(self).values_inv() && (*final(v)).inv() ==> final(self).values_inv())
            },
            r is None ==> *final(self) == *old(self),
    {
        match self.find(key) {
            Some(i) => {
                proof {
                    lemma_lookup(self.entries@, i as int);
                    let entries = self.entries@;
                    let ii = i as int;
                    assert forall|v: MaybeUtf8| distinct_keys(#[trigger] entries.update(ii, (entries[ii].0, v)))
                        && entries_map(entries.update(ii, (entries[ii].0, v))) == entries_map(entries).insert(entries[ii].0@, v@) by {
                        lemma_set_value(entries, ii, v);
                    }
                }
                Some(&mut self.entries[i].1)
            },
            None => None,
        }
    }

    /// Remove a parameter and return it.
    pub fn remove(&mut self, key: &[u8]) -> (r: Option<MaybeUtf8>)
        requires
            old(self).wf(),
        ensures
            final(self).wf(),
            final(self)@ == old(self)@.remove(key@),
            old(self).values_inv() ==> final(self).values_inv(),
            r is Some <==> old(self)@.dom().contains(key@),
            r matches Some(v) ==> v@ == old(self)@[key@] && (old(self).values_inv() ==> v.inv()),
    {
        let ghost old_entries = self.entries@;
        match self.find(key) {
            Some(i) => {
                proof {
                    lemma_lookup(old_entries, i as int);
                }
                let (_, v) = self.entries.remove(i);
                proof {
                    let new_entries = self.entries@;
                    assert(new_entries =~= old_entries.remove(i as int));
                    assert forall|a: int, b: int|
                        0 <= a < new_entries.len() && 0 <= b < new_entries.len() && a != b
                        implies new_entries[a].0@ != new_entries[b].0@ by {
                        let oa = if a < i { a } else { a + 1 };
                        let ob = if b < i { b } else { b + 1 };
                        assert(new_entries[a] == old_entries[oa]);
                        assert(new_entries[b] == old_entries[ob]);
                    }
                    assert forall|k: Seq<u8>| #[trigger] entries_map(new_entries).dom().contains(k)
                        <==> entries_map(old_entries).remove(key@).dom().contains(k) by {
                        if entries_map(new_entries).dom().contains(k) {
                            let j = choose|j: int| 0 <= j < new_entries.len() && new_entries[j].0@ == k;
                            let oj = if j < i { j } else { j + 1 };
                            assert(old_entries[oj].0@ == k);
                            assert(oj != i);
                        }
                        if entries_map(old_entries).remove(key@).dom().contains(k) {
                            let j = choose|j: int| 0 <= j < old_entries.len() && old_entries[j].0@ == k;
                            assert(j != i);
                            let nj = if j < i { j } else { j - 1 };
                            assert(new_entries[nj].0@ == k);
                        }
                    }
                    assert forall|k: Seq<u8>| #[trigger] entries_map(new_entries).dom().contains(k)
                        implies entries_map(new_entries)[k] == entries_map(old_entries).remove(key@)[k] by {
                        let j = choose|j: int| 0 <= j < new_entries.len() && new_entries[j].0@ == k;
                        let oj = if j < i { j } else { j + 1 };
                        lemma_lookup(new_entries, j);
                        lemma_lookup(old_entries, oj);
                    }
                    assert(self@ =~= entries_map(old_entries).remove(key@));
                }
                Some(v)
            },
            None => {
                proof {
                    assert(self@ =~= entries_map(old_entries).remove(key@));
                }
                None
            },
        }
    }
}

/// A parameter's place in a `Parameters`, for in-place manipulation.
pub struct Entry<'a> {
    params: &'a mut Parameters,
    key: MaybeUtf8,
}

impl<'a> Entry<'a> {
    /// The parameters the entry belongs to.
    pub closed spec fn params(self) -> &'a mut Parameters {
        self.params
    }

    /// The entry's key.
    pub closed spec fn key_view(self) -> Seq<u8> {
        self.key@
    }

    /// The entry's key.
    pub fn key(&self) -> (r: &MaybeUtf8)
        ensures
            r@ == self.key_view(),
    {
        &self.key
    }

    /// The parameter's value, after `default` is inserted if there is none.
    /// What is written through it becomes the parameter's value.
    pub fn or_insert(self, default: MaybeUtf8) -> (r: &'a mut MaybeUtf8)
        requires
            (*self.params()).wf(),
        ensures
            (*r)@ == if (*self.params())@.dom().contains(self.key_view()) {
                (*self.params())@[self.key_view()]
            } else {
                default@
            },
            (*final(self.params())).wf(),
            (*final(self.params()))@ == (*self.params())@.insert(self.key_view(), (*final(r))@),
            (*self.params()).values_inv() && default.inv() && (*final(r)).inv() ==> (*final(self.params())).values_inv(),
    {
        let Entry { params, key } = self;
        if !params.contains_key(key.as_bytes()) {
            params.insert(key.duplicate(), default);
        }
        match Parameters::get_mut(params, key.as_bytes()) {
            Some(v) => v,
            None => vstd::pervasive::unreached(),
        }
    }
}

impl Parameters {
    /// Get the place of a parameter for in-place manipulation.
    pub fn entry(&mut self, key: MaybeUtf8) -> (r: Entry<'_>)
        ensures
            *r.params() == *old(self),
            *final(self) == *final(r.params()),
            r.key_view() == key@,
    {
        Entry { params: self, key }
    }
}

/// What `insert` stores, `get_raw` gives back: after inserting `value` at
/// `key`, the parameter `key` is `value`, and every other parameter is as it
/// was.
pub proof fn law_read_after_insert(params: Map<Seq<u8>, Seq<u8>>, key: Seq<u8>, value: Seq<u8>, other: Seq<u8>)
    requires
        other != key,
    ensures
        params.insert(key, value).dom().contains(key),
        params.insert(key, value)[key] == value,
        params.insert(key, value).dom().contains(other) == params.dom().contains(other),
        params.dom().contains(other) ==> params.insert(key, value)[other] == params[other],
{
}

/// After `remove` of `key`, `contains_key` of `key` is false, and every
/// other parameter is as it was.
pub proof fn law_remove_forgets(params: Map<Seq<u8>, Seq<u8>>, key: Seq<u8>, other: Seq<u8>)
    requires
        other != key,
    ensures
        !params.remove(key).dom().contains(key),
        params.remove(key).dom().contains(other) == params.dom().contains(other),
        params.dom().contains(other) ==> params.remove(key)[other] == params[other],
{
}

/// `insert` adds one to the number of parameters when the key is new, and
/// keeps it when the key was there.
pub proof fn law_insert_len(params: Map<Seq<u8>, Seq<u8>>, key: Seq<u8>, value: Seq<u8>)
    requires
        params.dom().finite(),
    ensures
        params.insert(key, value).dom().finite(),
        params.insert(key, value).dom().len() == params.dom().len() + if params.dom().contains(key) {
            0int
        } else {
            1int
        },
{
}

/// `remove` takes one from the number of parameters when the key was there,
/// and keeps it otherwise.
pub proof fn law_remove_len(params: Map<Seq<u8>, Seq<u8>>, key: Seq<u8>)
    requires
        params.dom().finite(),
    ensures
        params.remove(key).dom().finite(),
        params.remove(key).dom().len() == params.dom().len() - if params.dom().contains(key) {
            1int
        } else {
            0int
        },
{
}

} // verus!
