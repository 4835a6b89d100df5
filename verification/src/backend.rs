use vstd::prelude::*;

use crate::eq::frame_eq;
use crate::frame::FrameV;
use crate::frame::RespFrame;
use crate::frame::fview;
use crate::order::bytes_eq;

verus! {

/// One value kind a key may hold: a plain string, a hash of fields, or a
/// set of member frames. An operation of one kind never touches a key
/// holding another kind: the caller sees an error instead.
#[derive(Debug)]
pub enum StoreValue {
    Text(Vec<u8>),
    Hash(Vec<HashEntry>),
    Members(Vec<RespFrame>),
}

#[derive(Debug)]
pub struct HashEntry {
    pub field: Vec<u8>,
    pub value: RespFrame,
}

#[derive(Debug)]
pub struct StoreEntry {
    pub key: Vec<u8>,
    pub value: StoreValue,
}

/// The in-memory key/value store. All connections share one `Backend`
/// through the lock the surrounding program wraps it in; each operation
/// here is one atomic step of that shared store.
#[derive(Debug)]
pub struct Backend {
    pub store: Vec<StoreEntry>,
}

impl Backend {
    /// Keys name at most one entry.
    pub open spec fn wf(self) -> bool {
        forall|i: int, j: int|
            0 <= i < j < self.store@.len() ==> (#[trigger] self.store@[i]).key@ != (
            #[trigger] self.store@[j]).key@
    }

    pub open spec fn has_key(self, k: Seq<u8>) -> bool {
        exists|i: int| 0 <= i < self.store@.len() && (#[trigger] self.store@[i]).key@ == k
    }

    pub open spec fn idx_of(self, k: Seq<u8>) -> int {
        choose|i: int| 0 <= i < self.store@.len() && (#[trigger] self.store@[i]).key@ == k
    }

    /// The value stored under `k`, if any.
    pub open spec fn lookup(self, k: Seq<u8>) -> Option<StoreValue> {
        if self.has_key(k) {
            Some(self.store@[self.idx_of(k)].value)
        } else {
            None
        }
    }

    /// Whether the set under `k` holds a member whose value is `m`.
    pub open spec fn set_contains(self, k: Seq<u8>, m: FrameV) -> bool {
        match self.lookup(k) {
            Some(StoreValue::Members(v)) => exists|j: int|
                0 <= j < v@.len() && fview(#[trigger] v@[j]) == m,
            _ => false,
        }
    }

    /// Whether the hash under `k` maps `f` to `m`.
    pub open spec fn hash_contains(self, k: Seq<u8>, f: Seq<u8>, m: FrameV) -> bool {
        match self.lookup(k) {
            Some(StoreValue::Hash(es)) => exists|j: int|
                0 <= j < es@.len() && (#[trigger] es@[j]).field@ == f && fview(es@[j].value) == m,
            _ => false,
        }
    }

    /// The string under `k`, if that key holds a string.
    pub open spec fn str_at(self, k: Seq<u8>) -> Option<Seq<u8>> {
        match self.lookup(k) {
            Some(StoreValue::Text(t)) => Some(t@),
            _ => None,
        }
    }

    pub fn new() -> (r: Backend)
        ensures
            r.wf(),
            r.store@.len() == 0,
    {
        Backend { store: Vec::new() }
    }

    fn find_idx(&self, key: &[u8]) -> (r: Option<usize>)
        ensures
            match r {
                Some(i) => i < self.store@.len() && self.store@[i as int].key@ == key@
                    && self.has_key(key@),
                None => !self.has_key(key@),
            },
    {
        let n = self.store.len();
        let mut j: usize = 0;
        while j < n
            invariant
                j <= n,
                n == self.store@.len(),
                forall|t: int| 0 <= t < j ==> (#[trigger] self.store@[t]).key@ != key@,
            decreases n - j,
        {
            if bytes_eq(self.store[j].key.as_slice(), key) {
                return Some(j);
            }
            j += 1;
        }
        None
    }

    proof fn lemma_idx_unique(self, k: Seq<u8>, i: int)
        requires
            self.wf(),
            0 <= i < self.store@.len(),
            self.store@[i].key@ == k,
        ensures
            self.has_key(k),
            self.idx_of(k) == i,
    {
        assert(self.has_key(k));
        let w = self.idx_of(k);
        assert(0 <= w < self.store@.len() && self.store@[w].key@ == k);
        if w != i {
            if w < i {
                assert(self.store@[w].key@ != self.store@[i].key@);
            } else {
                assert(self.store@[i].key@ != self.store@[w].key@);
            }
        }
    }

    /// Entries untouched by an update keep every other key's value.
    proof fn lemma_frame_update(a: Backend, b: Backend, i: int)
        requires
            a.wf(),
            a.store@.len() == b.store@.len(),
            0 <= i < a.store@.len(),
            forall|t: int| 0 <= t < a.store@.len() && t != i ==> a.store@[t] == #[trigger] b.store@[t],
            a.store@[i].key@ == b.store@[i].key@,
        ensures
            b.wf(),
            forall|k: Seq<u8>| k != a.store@[i].key@ ==> a.lookup(k) == #[trigger] b.lookup(k),
            a.lookup(a.store@[i].key@) == Some(a.store@[i].value),
            b.lookup(a.store@[i].key@) == Some(b.store@[i].value),
    {
        assert forall|s: int, t: int| 0 <= s < t < b.store@.len() implies (
        #[trigger] b.store@[s]).key@ != (#[trigger] b.store@[t]).key@ by {
            assert(a.store@[s].key@ == b.store@[s].key@);
            assert(a.store@[t].key@ == b.store@[t].key@);
        }
        a.lemma_idx_unique(a.store@[i].key@, i);
        b.lemma_idx_unique(a.store@[i].key@, i);
        assert forall|k: Seq<u8>| k != a.store@[i].key@ implies a.lookup(k) == #[trigger] b.lookup(
            k,
        ) by {
            if a.has_key(k) {
                let w = a.idx_of(k);
                assert(0 <= w < a.store@.len() && a.store@[w].key@ == k);
                assert(w != i);
                assert(b.store@[w].key@ == k);
                b.lemma_idx_unique(k, w);
            } else if b.has_key(k) {
                let w = b.idx_of(k);
                assert(0 <= w < b.store@.len() && b.store@[w].key@ == k);
                assert(w != i);
                assert(a.store@[w].key@ == k);
            }
        }
    }

    /// A pushed entry with a fresh key leaves every other key's value.
    proof fn lemma_frame_push(a: Backend, b: Backend, k0: Seq<u8>)
        requires
            a.wf(),
            !a.has_key(k0),
            b.store@ == a.store@.push(b.store@[a.store@.len() as int]),
            b.store@.len() == a.store@.len() + 1,
            b.store@[a.store@.len() as int].key@ == k0,
        ensures
            b.wf(),
            forall|k: Seq<u8>| k != k0 ==> a.lookup(k) == #[trigger] b.lookup(k),
            b.lookup(k0) == Some(b.store@[a.store@.len() as int].value),
    {
        let n = a.store@.len() as int;
        assert forall|s: int, t: int| 0 <= s < t < b.store@.len() implies (
        #[trigger] b.store@[s]).key@ != (#[trigger] b.store@[t]).key@ by {
            if t < n {
                assert(b.store@[s] == a.store@[s] && b.store@[t] == a.store@[t]);
            } else {
                assert(b.store@[s] == a.store@[s]);
                assert(b.store@[t].key@ == k0);
            }
        }
        b.lemma_idx_unique(k0, n);
        assert forall|k: Seq<u8>| k != k0 implies a.lookup(k) == #[trigger] b.lookup(k) by {
            if a.has_key(k) {
                let w = a.idx_of(k);
                assert(b.store@[w] == a.store@[w]);
                b.lemma_idx_unique(k, w);
            } else if b.has_key(k) {
                let w = b.idx_of(k);
                assert(w != n);
                assert(a.store@[w] == b.store@[w]);
            }
        }
    }

    /// Adds `member` to the set under `key`, creating the set on first
    /// use. Returns `false`, changing nothing, when the key holds a value
    /// of another kind. Every member present before stays present: this
    /// is the no-lost-update guarantee each atomic step gives.
    pub fn sadd(&mut self, key: Vec<u8>, member: RespFrame) -> (r: bool)
        requires
            old(self).wf(),
        ensures
            final(self).wf(),
            r == (match old(self).lookup(key@) {
                Some(StoreValue::Members(_)) => true,
                Some(_) => false,
                None => true,
            }),
            !r ==> final(self).store@ == old(self).store@,
            r ==> final(self).set_contains(key@, fview(member)),
            forall|k: Seq<u8>, m: FrameV|
                old(self).set_contains(k, m) ==> #[trigger] final(self).set_contains(k, m),
            forall|k: Seq<u8>, m: FrameV|
                #[trigger] final(self).set_contains(k, m) ==> old(self).set_contains(k, m) || (k
                    == key@ && m == fview(member)),
            forall|k: Seq<u8>| k != key@ ==> old(self).lookup(k) == #[trigger] final(self).lookup(
                k,
            ),
    {
        let ghost a = *self;
        match self.find_idx(key.as_slice()) {
            None => {
                let ghost k0 = key@;
                let ghost m0 = member;
                let mut v: Vec<RespFrame> = Vec::new();
                v.push(member);
                let ghost vv = v@;
                let entry = StoreEntry { key, value: StoreValue::Members(v) };
                let ghost ev = entry;
                self.store.push(entry);
                proof {
                    let n = a.store@.len() as int;
                    assert(self.store@[n] == ev);
                    Self::lemma_frame_push(a, *self, k0);
                    assert(self.lookup(k0) == Some(ev.value));
                    assert(vv =~= seq![m0]);
                    assert(fview(ev.value->Members_0@[0]) == fview(m0));
                    assert(self.set_contains(k0, fview(member)));
                    assert forall|k: Seq<u8>, m: FrameV| a.set_contains(k, m) implies
                        #[trigger] self.set_contains(k, m) by {
                        assert(a.has_key(k));
                        assert(k != k0);
                        assert(a.lookup(k) == self.lookup(k));
                    }
                    assert forall|k: Seq<u8>, m: FrameV| #[trigger] self.set_contains(k, m)
                        implies a.set_contains(k, m) || (k == key@ && m == fview(member)) by {
                        if k == k0 {
                            let j = choose|j: int|
                                0 <= j < ev.value->Members_0@.len() && fview(
                                    #[trigger] ev.value->Members_0@[j],
                                ) == m;
                            assert(j == 0);
                            assert(m == fview(m0));
                        } else {
                            assert(a.lookup(k) == self.lookup(k));
                        }
                    }
                }
                true
            },
            Some(i) => {
                let ghost k0 = self.store@[i as int].key@;
                proof {
                    a.lemma_idx_unique(k0, i as int);
                }
                let entry = self.store.remove(i);
                let ekey = entry.key;
                match entry.value {
                    StoreValue::Members(mut v) => {
                        let ghost v0 = v@;
                        let n = v.len();
                        let mut j: usize = 0;
                        let mut present = false;
                        while j < n
                            invariant
                                j <= n,
                                n == v@.len(),
                                v@ == v0,
                                present == exists|t: int|
                                    0 <= t < j && fview(#[trigger] v@[t]) == fview(member),
                            decreases n - j,
                        {
                            if frame_eq(&v[j], &member) {
                                present = true;
                                proof {
                                    assert(fview(v@[j as int]) == fview(member));
                                }
                            }
                            j += 1;
                        }
                        if !present {
                            v.push(member);
                        }
                        self.store.insert(i, StoreEntry { key: ekey, value: StoreValue::Members(v) });
                        proof {
                            assert(self.store@ =~= a.store@.update(
                                i as int,
                                self.store@[i as int],
                            ));
                            assert(self.store@[i as int].key@ == k0) by {
                                assert(ekey@ == k0);
                            }
                            Self::lemma_frame_update(a, *self, i as int);
                            assert(key@ == k0);
                            assert(a.lookup(k0) == Some(StoreValue::Members(
                                a.store@[i as int].value->Members_0,
                            )));
                            if !present {
                                assert(v@ == v0.push(member));
                                assert(fview(v@[v0.len() as int]) == fview(member));
                            }
                            assert(self.set_contains(k0, fview(member)));
                            assert forall|k: Seq<u8>, m: FrameV| a.set_contains(k, m) implies
                                #[trigger] self.set_contains(k, m) by {
                                if k == k0 {
                                    let t = choose|t: int|
                                        0 <= t < v0.len() && fview(#[trigger] v0[t]) == m;
                                    assert(fview(v@[t]) == m);
                                }
                            }
                            assert forall|k: Seq<u8>, m: FrameV|
                                #[trigger] self.set_contains(k, m) implies a.set_contains(k, m)
                                || (k == k0 && m == fview(member)) by {
                                if k == k0 {
                                    let t = choose|t: int|
                                        0 <= t < v@.len() && fview(#[trigger] v@[t]) == m;
                                    if t < v0.len() {
                                        assert(fview(v0[t]) == m);
                                    }
                                }
                            }
                        }
                        true
                    },
                    other => {
                        self.store.insert(i, StoreEntry { key: ekey, value: other });
                        proof {
                            assert(self.store@ =~= a.store@);
                        }
                        false
                    },
                }
            },
        }
    }

    /// Whether the set under `key` holds the bulk-string member `member`.
    /// A key that is absent or holds another kind has no members.
    pub fn sismember(&self, key: &[u8], member: &[u8]) -> (r: bool)
        requires
            self.wf(),
        ensures
            r == self.set_contains(key@, FrameV::BulkString(member@)),
    {
        match self.find_idx(key) {
            None => false,
            Some(i) => {
                proof {
                    self.lemma_idx_unique(key@, i as int);
                }
                match &self.store[i].value {
                    StoreValue::Members(v) => {
                        let n = v.len();
                        let mut j: usize = 0;
                        let ghost target = FrameV::BulkString(member@);
                        let mut found = false;
                        while j < n
                            invariant
                                j <= n,
                                n == v@.len(),
                                target == FrameV::BulkString(member@),
                                found == exists|t: int|
                                    0 <= t < j && fview(#[trigger] v@[t]) == target,
                            decreases n - j,
                        {
                            match &v[j] {
                                RespFrame::BulkString(b) => {
                                    if bytes_eq(b.0.as_slice(), member) {
                                        found = true;
                                        proof {
                                            assert(fview(v@[j as int]) == target);
                                        }
                                    }
                                },
                                _ => {},
                            }
                            j += 1;
                        }
                        found
                    },
                    _ => false,
                }
            },
        }
    }

    /// Stores the string `value` under `key`, creating or replacing a
    /// string entry. Returns `false`, changing nothing, when the key
    /// holds a hash or a set.
    pub fn set(&mut self, key: Vec<u8>, value: Vec<u8>) -> (r: bool)
        requires
            old(self).wf(),
        ensures
            final(self).wf(),
            r == (match old(self).lookup(key@) {
                Some(StoreValue::Text(_)) => true,
                Some(_) => false,
                None => true,
            }),
            !r ==> final(self).store@ == old(self).store@,
            r ==> final(self).str_at(key@) == Some(value@),
            forall|k: Seq<u8>| k != key@ ==> old(self).lookup(k) == #[trigger] final(self).lookup(
                k,
            ),
    {
        let ghost a = *self;
        match self.find_idx(key.as_slice()) {
            None => {
                let ghost k0 = key@;
                self.store.push(StoreEntry { key, value: StoreValue::Text(value) });
                proof {
                    Self::lemma_frame_push(a, *self, k0);
                }
                true
            },
            Some(i) => {
                let ghost k0 = self.store@[i as int].key@;
                proof {
                    a.lemma_idx_unique(k0, i as int);
                }
                let entry = self.store.remove(i);
                let ekey = entry.key;
                match entry.value {
                    StoreValue::Text(_) => {
                        self.store.insert(i, StoreEntry { key: ekey, value: StoreValue::Text(value) });
                        proof {
                            assert(self.store@ =~= a.store@.update(
                                i as int,
                                self.store@[i as int],
                            ));
                            Self::lemma_frame_update(a, *self, i as int);
                        }
                        true
                    },
                    other => {
                        self.store.insert(i, StoreEntry { key: ekey, value: other });
                        proof {
                            assert(self.store@ =~= a.store@);
                        }
                        false
                    },
                }
            },
        }
    }

    /// Stores `value` under `field` of the hash at `key`, creating the
    /// hash on first use and replacing the field's value when the field
    /// is already present. Returns `false`, changing nothing, when the
    /// key holds a value of another kind.
    pub fn hset(&mut self, key: Vec<u8>, field: Vec<u8>, value: RespFrame) -> (r: bool)
        requires
            old(self).wf(),
        ensures
            final(self).wf(),
            r == (match old(self).lookup(key@) {
                Some(StoreValue::Hash(_)) => true,
                Some(_) => false,
                None => true,
            }),
            !r ==> final(self).store@ == old(self).store@,
            r ==> final(self).hash_contains(key@, field@, fview(value)),
            forall|f: Seq<u8>, m: FrameV|
                f != field@ && old(self).hash_contains(key@, f, m)
                    ==> #[trigger] final(self).hash_contains(key@, f, m),
            forall|f: Seq<u8>, m: FrameV|
                f != field@ && #[trigger] final(self).hash_contains(key@, f, m) ==> old(
                    self,
                ).hash_contains(key@, f, m),
            forall|k: Seq<u8>| k != key@ ==> old(self).lookup(k) == #[trigger] final(self).lookup(
                k,
            ),
    {
        let ghost a = *self;
        match self.find_idx(key.as_slice()) {
            None => {
                let ghost k0 = key@;
                let mut es: Vec<HashEntry> = Vec::new();
                es.push(HashEntry { field, value });
                let entry = StoreEntry { key, value: StoreValue::Hash(es) };
                let ghost ev = entry;
                self.store.push(entry);
                proof {
                    let n = a.store@.len() as int;
                    assert(self.store@[n] == ev);
                    Self::lemma_frame_push(a, *self, k0);
                    assert(self.lookup(k0) == Some(ev.value));
                    assert((ev.value->Hash_0@[0]).field@ == field@ && fview(
                        ev.value->Hash_0@[0].value,
                    ) == fview(value));
                    assert(self.hash_contains(k0, field@, fview(value)));
                    assert forall|f: Seq<u8>, m: FrameV|
                        f != field@ && #[trigger] self.hash_contains(k0, f, m) implies false by {
                        let t = choose|t: int|
                            0 <= t < ev.value->Hash_0@.len() && (#[trigger] ev.value->Hash_0@[t]).field@
                                == f && fview(ev.value->Hash_0@[t].value) == m;
                        assert(t == 0);
                    }
                }
                true
            },
            Some(i) => {
                let ghost k0 = self.store@[i as int].key@;
                proof {
                    a.lemma_idx_unique(k0, i as int);
                }
                let entry = self.store.remove(i);
                let ekey = entry.key;
                match entry.value {
                    StoreValue::Hash(mut es) => {
                        let ghost es0 = es@;
                        let n = es.len();
                        let mut j: usize = 0;
                        let mut found = n;
                        while j < n
                            invariant
                                j <= n,
                                n == es@.len(),
                                es@ == es0,
                                found <= n,
                                found == n ==> forall|t: int|
                                    0 <= t < j ==> (#[trigger] es@[t]).field@ != field@,
                                found < n ==> es@[found as int].field@ == field@,
                            decreases n - j,
                        {
                            if bytes_eq(es[j].field.as_slice(), field.as_slice()) {
                                found = j;
                                j = n;
                            } else {
                                j += 1;
                            }
                        }
                        let ghost f0 = field@;
                        let ghost v0 = fview(value);
                        if found < n {
                            es.set(found, HashEntry { field, value });
                        } else {
                            es.push(HashEntry { field, value });
                        }
                        let ghost es1 = es@;
                        self.store.insert(i, StoreEntry { key: ekey, value: StoreValue::Hash(es) });
                        proof {
                            assert(self.store@ =~= a.store@.update(
                                i as int,
                                self.store@[i as int],
                            ));
                            assert(self.store@[i as int].key@ == k0) by {
                                assert(ekey@ == k0);
                            }
                            Self::lemma_frame_update(a, *self, i as int);
                            assert(a.lookup(k0) == Some(StoreValue::Hash(
                                a.store@[i as int].value->Hash_0,
                            )));
                            assert(self.lookup(k0) == Some(self.store@[i as int].value));
                            assert(self.store@[i as int].value->Hash_0@ == es1);
                            if found < n {
                                assert(es1 == es0.update(found as int, es1[found as int]));
                                assert(es1[found as int].field@ == f0 && fview(
                                    es1[found as int].value,
                                ) == v0);
                            } else {
                                assert(es1 == es0.push(es1[es0.len() as int]));
                                assert(es1[es0.len() as int].field@ == f0 && fview(
                                    es1[es0.len() as int].value,
                                ) == v0);
                            }
                            assert(self.hash_contains(k0, f0, v0));
                            assert forall|f: Seq<u8>, m: FrameV|
                                f != f0 && a.hash_contains(k0, f, m) implies
                                #[trigger] self.hash_contains(k0, f, m) by {
                                let t = choose|t: int|
                                    0 <= t < es0.len() && (#[trigger] es0[t]).field@ == f && fview(
                                        es0[t].value,
                                    ) == m;
                                if found < n {
                                    assert(t != found);
                                }
                                assert(es1[t].field@ == f && fview(es1[t].value) == m);
                            }
                            assert forall|f: Seq<u8>, m: FrameV|
                                f != f0 && #[trigger] self.hash_contains(k0, f, m) implies
                                a.hash_contains(k0, f, m) by {
                                let t = choose|t: int|
                                    0 <= t < es1.len() && (#[trigger] es1[t]).field@ == f && fview(
                                        es1[t].value,
                                    ) == m;
                                if found < n {
                                    assert(t != found);
                                } else {
                                    assert(t != es0.len());
                                }
                                assert(es0[t].field@ == f && fview(es0[t].value) == m);
                            }
                        }
                        true
                    },
                    other => {
                        self.store.insert(i, StoreEntry { key: ekey, value: other });
                        proof {
                            assert(self.store@ =~= a.store@);
                        }
                        false
                    },
                }
            },
        }
    }

    /// The value under `field` of the hash at `key`; absent keys, absent
    /// fields and keys of another kind read as not found.
    pub fn hget(&self, key: &[u8], field: &[u8]) -> (r: Option<&RespFrame>)
        requires
            self.wf(),
        ensures
            match r {
                Some(f) => self.hash_contains(key@, field@, fview(*f)),
                None => forall|m: FrameV| !self.hash_contains(key@, field@, m),
            },
    {
        match self.find_idx(key) {
            None => None,
            Some(i) => {
                proof {
                    self.lemma_idx_unique(key@, i as int);
                }
                match &self.store[i].value {
                    StoreValue::Hash(es) => {
                        let n = es.len();
                        let mut j: usize = 0;
                        while j < n
                            invariant
                                j <= n,
                                n == es@.len(),
                                self.wf(),
                                i < self.store@.len(),
                                self.store@[i as int].key@ == key@,
                                self.store@[i as int].value == StoreValue::Hash(*es),
                                forall|t: int| 0 <= t < j ==> (#[trigger] es@[t]).field@ != field@,
                            decreases n - j,
                        {
                            if bytes_eq(es[j].field.as_slice(), field) {
                                proof {
                                    self.lemma_idx_unique(key@, i as int);
                                }
                                return Some(&es[j].value);
                            }
                            j += 1;
                        }
                        None
                    },
                    _ => None,
                }
            },
        }
    }

    /// The string under `key`; absent keys and keys of another kind read
    /// as not found.
    pub fn get(&self, key: &[u8]) -> (r: Option<Vec<u8>>)
        requires
            self.wf(),
        ensures
            match r {
                Some(v) => self.str_at(key@) == Some(v@),
                None => self.str_at(key@) is None,
            },
    {
        match self.find_idx(key) {
            None => None,
            Some(i) => {
                proof {
                    self.lemma_idx_unique(key@, i as int);
                }
                match &self.store[i].value {
                    StoreValue::Text(t) => Some(vstd::slice::slice_to_vec(t.as_slice())),
                    _ => None,
                }
            },
        }
    }
}

/// The sum of a key's bytes: the quantity the stripe choice is made from.
pub open spec fn byte_sum(s: Seq<u8>) -> int
    decreases s.len(),
{
    if s.len() == 0 {
        0
    } else {
        byte_sum(s.drop_last()) + s.last()
    }
}

/// The stripe a key belongs to among `n`: its byte sum, reduced mod `n`.
pub open spec fn shard_spec(key: Seq<u8>, n: int) -> int {
    byte_sum(key) % n
}

/// Which of `n` lock stripes a key belongs to: exactly `shard_spec`, so
/// the choice is deterministic and every connection agrees on it.
pub fn shard_index(key: &[u8], n: usize) -> (r: usize)
    requires
        n > 0,
    ensures
        r < n,
        r as int == shard_spec(key@, n as int),
{
    let len = key.len();
    let mut sum: u128 = 0;
    let mut j: usize = 0;
    proof {
        assert(key@.take(0) =~= Seq::<u8>::empty());
    }
    while j < len
        invariant
            j <= len,
            len == key@.len(),
            0 < n,
            sum < n as u128,
            sum as int == byte_sum(key@.take(j as int)) % (n as int),
        decreases len - j,
    {
        let b = *vstd::slice::slice_index_get(key, j);
        proof {
            assert(key@.take(j + 1).drop_last() =~= key@.take(j as int));
            assert(key@.take(j + 1).last() == key@[j as int]);
            vstd::arithmetic::div_mod::lemma_add_mod_noop(
                byte_sum(key@.take(j as int)),
                b as int,
                n as int,
            );
            assert(b as int % (n as int) == ((b as u128) % (n as u128)) as int);
        }
        sum = (sum + (b as u128) % (n as u128)) % (n as u128);
        j += 1;
    }
    proof {
        assert(key@.take(len as int) =~= key@);
    }
    sum as usize
}

} // verus!
