use vstd::prelude::*;

verus! {

use crate::error::Error;
use vstd::string::StringSliceAdditionalSpecFns;

/// The main trait to interact with the in-memory database.
///
/// The failure cases in the signatures are for implementations whose
/// operations can fail internally, such as a store behind a lock shared by
/// several workers.
pub trait Database {
    /// The implementation's internal invariant.
    spec fn inv(&self) -> bool;

    /// Gets the `key`'s value from the database.
    /// Returns `None` if the key does not exist.
    fn get(&self, key: &str) -> Result<Option<String>, Error>
        requires
            self.inv(),
    ;

    /// Inserts the `value` for `key`.
    /// Overwrites the potentially existing value.
    fn insert(&mut self, key: String, value: String) -> (r: Result<(), Error>)
        requires
            old(self).inv(),
        ensures
            final(self).inv(),
    ;

    /// Removes `key` from the database.
    fn remove(&mut self, key: &str) -> (r: Result<(), Error>)
        requires
            old(self).inv(),
        ensures
            final(self).inv(),
    ;

    /// Clears the entire database.
    fn clear(&mut self) -> (r: Result<(), Error>)
        requires
            old(self).inv(),
        ensures
            final(self).inv(),
    ;
}

struct Entry {
    key: String,
    value: String,
}

/// True when `a` and `b` are the same byte sequences.
fn bytes_eq(a: &[u8], b: &[u8]) -> (r: bool)
    ensures
        r <==> a@ == b@,
{
    if a.len() != b.len() {
        proof {
            assert(a@.len() != b@.len());
        }
        return false;
    }
    let mut i: usize = 0;
    while i < a.len()
        invariant
            i <= a@.len(),
            a@.len() == b@.len(),
            forall|j: int| 0 <= j < i ==> a@[j] == b@[j],
        decreases a@.len() - i,
    {
        if a[i] != b[i] {
            return false;
        }
        i = i + 1;
    }
    proof {
        assert(a@ =~= b@);
    }
    true
}

/// True when `a` and `b` are the same character sequences.
fn str_eq(a: &str, b: &str) -> (r: bool)
    ensures
        r <==> a@ == b@,
{
    let r = bytes_eq(a.as_bytes(), b.as_bytes());
    proof {
        if a.spec_bytes() == b.spec_bytes() {
            vstd::utf8::encode_utf8_decode_utf8(a@);
            vstd::utf8::encode_utf8_decode_utf8(b@);
        }
    }
    r
}

/// An in-memory string-to-string store; insertion order is irrelevant and
/// keys are unique.
pub struct DB {
    entries: Vec<Entry>,
}

spec fn has_key(s: Seq<Entry>, k: Seq<char>) -> bool {
    exists|i: int| 0 <= i < s.len() && s[i].key@ == k
}

spec fn key_at(s: Seq<Entry>, k: Seq<char>) -> int {
    choose|i: int| 0 <= i < s.len() && s[i].key@ == k
}

spec fn keys_unique(s: Seq<Entry>) -> bool {
    forall|i: int, j: int| 0 <= i < j < s.len() ==> s[i].key@ != s[j].key@
}

proof fn lemma_key_at(s: Seq<Entry>, k: Seq<char>)
    requires
        keys_unique(s),
        has_key(s, k),
    ensures
        0 <= key_at(s, k) < s.len(),
        s[key_at(s, k)].key@ == k,
        forall|i: int| 0 <= i < s.len() && s[i].key@ == k ==> i == key_at(s, k),
{
    let w = key_at(s, k);
    assert(0 <= w < s.len() && s[w].key@ == k);
}

impl View for DB {
    type V = Map<Seq<char>, Seq<char>>;

    closed spec fn view(&self) -> Map<Seq<char>, Seq<char>> {
        Map::new(
            |k: Seq<char>| has_key(self.entries@, k),
            |k: Seq<char>| self.entries@[key_at(self.entries@, k)].value@,
        )
    }
}

impl DB {
    /// The store's internal invariant: no key occurs twice.
    pub closed spec fn wf(&self) -> bool {
        keys_unique(self.entries@)
    }

    /// Creates a new instance of `DB`.
    pub fn new() -> (db: DB)
        ensures
            db.wf(),
            db@ == Map::<Seq<char>, Seq<char>>::empty(),
    {
        let db = DB { entries: Vec::new() };
        proof {
            assert(db@ =~= Map::<Seq<char>, Seq<char>>::empty());
        }
        db
    }

    /// Creates a new instance of `DB` with the specified capacity.
    pub fn with_capacity(capacity: usize) -> (db: DB)
        ensures
            db.wf(),
            db@ == Map::<Seq<char>, Seq<char>>::empty(),
    {
        let db = DB { entries: Vec::with_capacity(capacity) };
        proof {
            assert(db@ =~= Map::<Seq<char>, Seq<char>>::empty());
        }
        db
    }

    /// Returns an owned copy of the value bound to `key`, or `None` when the
    /// key is absent.
    pub fn get(&self, key: &str) -> (r: Option<String>)
        requires
            self.wf(),
        ensures
            r is Some <==> self@.contains_key(key@),
            r matches Some(v) ==> v@ == self@[key@],
    {
        match self.find_index(key) {
            Some(i) => {
                proof {
                    lemma_key_at(self.entries@, key@);
                }
                Some(self.entries[i].value.clone())
            },
            None => None,
        }
    }

    /// The position of `key` among the entries, if it is bound.
    fn find_index(&self, key: &str) -> (r: Option<usize>)
        ensures
            r matches Some(i) ==> i < self.entries@.len() && self.entries@[i as int].key@ == key@,
            r is None ==> !has_key(self.entries@, key@),
    {
        let n = self.entries.len();
        let mut i: usize = 0;
        while i < n
            invariant
                n == self.entries@.len(),
                i <= n,
                forall|j: int| 0 <= j < i ==> self.entries@[j].key@ != key@,
            decreases n - i,
        {
            if str_eq(self.entries[i].key.as_str(), key) {
                return Some(i);
            }
            i = i + 1;
        }
        None
    }

    /// Binds `value` to `key`, replacing any previous binding.
    pub fn insert(&mut self, key: String, value: String)
        requires
            old(self).wf(),
        ensures
            final(self).wf(),
            final(self)@ == old(self)@.insert(key@, value@),
    {
        let ghost s0 = self.entries@;
        let ghost ek = key@;
        let ghost ev = value@;
        match self.find_index(key.as_str()) {
            Some(i) => {
                self.entries[i] = Entry { key, value };
                proof {
                    let s1 = self.entries@;
                    assert(s1[i as int].key@ == ek && s1[i as int].value@ == ev);
                    assert(s1.len() == s0.len());
                    assert(forall|j: int| 0 <= j < s1.len() && j != i ==> s1[j] == s0[j]);
                    assert(s0[i as int].key@ == ek);
                    assert(keys_unique(s1));
                    assert forall|k: Seq<char>| has_key(s1, k) <==> has_key(s0, k) by {
                        if has_key(s0, k) {
                            let w = choose|j: int| 0 <= j < s0.len() && s0[j].key@ == k;
                            assert(s1[w].key@ == k);
                        }
                        if has_key(s1, k) {
                            let w = choose|j: int| 0 <= j < s1.len() && s1[j].key@ == k;
                            assert(s0[w].key@ == k);
                        }
                    }
                    assert(has_key(s1, ek));
                    assert forall|k: Seq<char>| has_key(s1, k) implies self@[k] == old(self)@.insert(
                        ek,
                        ev,
                    )[k] by {
                        lemma_key_at(s1, k);
                        let w1 = key_at(s1, k);
                        assert(self@[k] == s1[w1].value@);
                        if k == ek {
                            assert(w1 == i);
                            assert(old(self)@.insert(ek, ev)[k] == ev);
                        } else {
                            assert(s1[w1] == s0[w1]);
                            assert(s0[w1].key@ == k);
                            lemma_key_at(s0, k);
                            assert(key_at(s0, k) == w1);
                            assert(has_key(s0, k));
                            assert(old(self)@.contains_key(k));
                            assert(old(self)@[k] == s0[w1].value@);
                            assert(old(self)@.insert(ek, ev)[k] == old(self)@[k]);
                        }
                    }
                    assert(self@ =~= old(self)@.insert(ek, ev));
                }
            },
            None => {
                self.entries.push(Entry { key, value });
                proof {
                    let s1 = self.entries@;
                    assert(s1.len() == s0.len() + 1);
                    assert(s1[s0.len() as int].key@ == ek && s1[s0.len() as int].value@ == ev);
                    assert(forall|j: int| 0 <= j < s0.len() ==> s1[j] == s0[j]);
                    assert forall|j: int| 0 <= j < s0.len() implies s0[j].key@ != ek by {
                        assert(!has_key(s0, ek));
                    }
                    assert(keys_unique(s1));
                    assert forall|k: Seq<char>| has_key(s1, k) implies (has_key(s0, k) || k == ek) by {
                        let w = choose|j: int| 0 <= j < s1.len() && s1[j].key@ == k;
                        if w < s0.len() {
                            assert(s0[w].key@ == k);
                        }
                    }
                    assert(has_key(s1, ek));
                    assert forall|k: Seq<char>| has_key(s0, k) implies has_key(s1, k) by {
                        let w = choose|j: int| 0 <= j < s0.len() && s0[j].key@ == k;
                        assert(s1[w].key@ == k);
                    }
                    assert forall|k: Seq<char>| has_key(s1, k) implies self@[k] == old(self)@.insert(
                        ek,
                        ev,
                    )[k] by {
                        lemma_key_at(s1, k);
                        let w1 = key_at(s1, k);
                        assert(self@[k] == s1[w1].value@);
                        if k == ek {
                            assert(w1 == s0.len());
                            assert(old(self)@.insert(ek, ev)[k] == ev);
                        } else {
                            assert(w1 < s0.len());
                            assert(s0[w1].key@ == k);
                            lemma_key_at(s0, k);
                            assert(key_at(s0, k) == w1);
                            assert(has_key(s0, k));
                            assert(old(self)@.contains_key(k));
                            assert(old(self)@[k] == s0[w1].value@);
                            assert(old(self)@.insert(ek, ev)[k] == old(self)@[k]);
                        }
                    }
                    assert(self@ =~= old(self)@.insert(ek, ev));
                }
            },
        }
    }

    /// Removes the binding for `key`; an absent key is a no-op.
    pub fn remove(&mut self, key: &str)
        requires
            old(self).wf(),
        ensures
            final(self).wf(),
            final(self)@ == old(self)@.remove(key@),
    {
        let ghost s0 = self.entries@;
        match self.find_index(key) {
            Some(i) => {
                proof {
                    assert(s0[i as int].key@ == key@);
                }
                self.entries.remove(i);
                proof {
                    let s1 = self.entries@;
                    assert(s1.len() == s0.len() - 1);
                    assert(forall|j: int| 0 <= j < i ==> s1[j] == s0[j]);
                    assert(forall|j: int| i <= j < s1.len() ==> s1[j] == s0[j + 1]);
                    assert(keys_unique(s1));
                    assert(!has_key(s1, key@));
                    assert forall|k: Seq<char>| k != key@ implies (has_key(s1, k) <==> has_key(
                        s0,
                        k,
                    )) by {
                        if has_key(s0, k) {
                            let w = choose|j: int| 0 <= j < s0.len() && s0[j].key@ == k;
                            assert(w != i);
                            if w < i {
                                assert(s1[w].key@ == k);
                            } else {
                                assert(s1[w - 1].key@ == k);
                            }
                        }
                        if has_key(s1, k) {
                            let w = choose|j: int| 0 <= j < s1.len() && s1[j].key@ == k;
                            if w < i {
                                assert(s0[w].key@ == k);
                            } else {
                                assert(s0[w + 1].key@ == k);
                            }
                        }
                    }
                    assert forall|k: Seq<char>| has_key(s1, k) implies self@[k] == old(self)@.remove(
                        key@,
                    )[k] by {
                        lemma_key_at(s1, k);
                        let w1 = key_at(s1, k);
                        assert(self@[k] == s1[w1].value@);
                        assert(k != key@);
                        let w0 = if w1 < i { w1 } else { w1 + 1 };
                        assert(s0[w0].key@ == k);
                        assert(s1[w1].value@ == s0[w0].value@);
                        lemma_key_at(s0, k);
                        assert(key_at(s0, k) == w0);
                        assert(has_key(s0, k));
                        assert(old(self)@.contains_key(k));
                        assert(old(self)@[k] == s0[w0].value@);
                        assert(old(self)@.remove(key@)[k] == old(self)@[k]);
                    }
                    assert(self@ =~= old(self)@.remove(key@));
                }
            },
            None => {
                proof {
                    assert(!old(self)@.contains_key(key@));
                    assert(self@ =~= old(self)@.remove(key@));
                }
            },
        }
    }

    /// Removes every binding.
    pub fn clear(&mut self)
        ensures
            final(self).wf(),
            final(self)@ == Map::<Seq<char>, Seq<char>>::empty(),
    {
        self.entries.clear();
        proof {
            assert(self@ =~= Map::<Seq<char>, Seq<char>>::empty());
        }
    }
}

impl Default for DB {
    fn default() -> (db: DB)
        ensures
            db.wf(),
            db@ == Map::<Seq<char>, Seq<char>>::empty(),
    {
        DB::new()
    }
}

impl Database for DB {
    open spec fn inv(&self) -> bool {
        self.wf()
    }

    fn get(&self, key: &str) -> Result<Option<String>, Error> {
        Ok(self.get(key))
    }

    fn insert(&mut self, key: String, value: String) -> Result<(), Error> {
        self.insert(key, value);
        Ok(())
    }

    fn remove(&mut self, key: &str) -> Result<(), Error> {
        self.remove(key);
        Ok(())
    }

    fn clear(&mut self) -> Result<(), Error> {
        self.clear();
        Ok(())
    }
}

} // verus!
