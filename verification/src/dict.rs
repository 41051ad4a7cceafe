use vstd::prelude::*;
use vstd::string::StringSliceAdditionalSpecFns;
use crate::object::{Obj, PdfObject, PdfDict, Entries, ObjectId, obj_view, objs_view, entries_view, group_views, lemma_entries_view};

verus! {

broadcast use {vstd::seq::group_seq_axioms, group_views};

// ---------------------------------------------------------------------------
// Dictionaries: an entry per key, in insertion order.
// ---------------------------------------------------------------------------

pub open spec fn has_key(e: Entries, k: Seq<u8>) -> bool {
    exists|i: int| 0 <= i < e.len() && e[i].0 == k
}

pub open spec fn is_first_key(e: Entries, k: Seq<u8>, i: int) -> bool {
    &&& 0 <= i < e.len()
    &&& e[i].0 == k
    &&& forall|j: int| 0 <= j < i ==> e[j].0 != k
}

/// The position of the first entry with key `k`.
pub open spec fn first_key(e: Entries, k: Seq<u8>) -> int {
    choose|i: int| is_first_key(e, k, i)
}

/// The value stored under `k`, if any.
pub open spec fn dict_get(e: Entries, k: Seq<u8>) -> Option<Obj> {
    if has_key(e, k) {
        Some(e[first_key(e, k)].1)
    } else {
        None
    }
}

/// Storing `v` under `k`: an existing entry keeps its place, a new one goes last.
pub open spec fn dict_set(e: Entries, k: Seq<u8>, v: Obj) -> Entries {
    if has_key(e, k) {
        e.update(first_key(e, k), (k, v))
    } else {
        e.push((k, v))
    }
}

/// Removing the entry of `k`: the last entry takes its place.
pub open spec fn dict_remove(e: Entries, k: Seq<u8>) -> Entries {
    if has_key(e, k) {
        e.update(first_key(e, k), e.last()).drop_last()
    } else {
        e
    }
}

/// No key occurs twice.
pub open spec fn keys_unique(e: Entries) -> bool {
    forall|i: int, j: int| 0 <= i < j < e.len() ==> e[i].0 != e[j].0
}

pub proof fn lemma_first_key_exists(e: Entries, k: Seq<u8>, n: int)
    requires
        0 <= n <= e.len(),
        exists|i: int| 0 <= i < n && e[i].0 == k,
    ensures
        is_first_key(e, k, first_key(e, k)),
    decreases n,
{
    if exists|i: int| 0 <= i < n - 1 && e[i].0 == k {
        lemma_first_key_exists(e, k, n - 1);
    } else {
        assert(is_first_key(e, k, n - 1));
    }
}

pub proof fn lemma_first_key(e: Entries, k: Seq<u8>)
    requires
        has_key(e, k),
    ensures
        is_first_key(e, k, first_key(e, k)),
{
    lemma_first_key_exists(e, k, e.len() as int);
}

pub proof fn lemma_first_key_unique(e: Entries, k: Seq<u8>, i: int)
    requires
        is_first_key(e, k, i),
    ensures
        first_key(e, k) == i,
        has_key(e, k),
{
    lemma_first_key(e, k);
    let j = first_key(e, k);
    if j < i {
        assert(e[j].0 != k);
    } else if i < j {
        assert(e[i].0 != k);
    }
}

/// Reading a key just written gives back what was written.
pub proof fn lemma_dict_get_set(e: Entries, k: Seq<u8>, v: Obj, k2: Seq<u8>)
    ensures
        dict_get(dict_set(e, k, v), k2) == if k2 == k {
            Some(v)
        } else {
            dict_get(e, k2)
        },
{
    let e2 = dict_set(e, k, v);
    if has_key(e, k) {
        lemma_first_key(e, k);
        let i = first_key(e, k);
        if k2 == k {
            lemma_first_key_unique(e2, k, i);
        } else if has_key(e, k2) {
            lemma_first_key(e, k2);
            lemma_first_key_unique(e2, k2, first_key(e, k2));
        } else {
            assert(!has_key(e2, k2));
        }
    } else {
        if k2 == k {
            lemma_first_key_unique(e2, k, e.len() as int);
        } else if has_key(e, k2) {
            lemma_first_key(e, k2);
            lemma_first_key_unique(e2, k2, first_key(e, k2));
        } else {
            assert(!has_key(e2, k2));
        }
    }
}

/// With no repeated key, a removed key is gone and the others keep their values.
pub proof fn lemma_dict_get_remove(e: Entries, k: Seq<u8>, k2: Seq<u8>)
    requires
        keys_unique(e),
    ensures
        dict_get(dict_remove(e, k), k2) == if k2 == k {
            None
        } else {
            dict_get(e, k2)
        },
        keys_unique(dict_remove(e, k)),
{
    let e2 = dict_remove(e, k);
    if has_key(e, k) {
        lemma_first_key(e, k);
        let i = first_key(e, k);
        let n = e.len() - 1;
        if k2 == k {
            assert(!has_key(e2, k2)) by {
                if has_key(e2, k2) {
                    let j = choose|j: int| 0 <= j < e2.len() && e2[j].0 == k2;
                    if j == i {
                        assert(e[n].0 == k);
                    } else {
                        assert(e[j].0 == k);
                    }
                }
            }
        } else if has_key(e, k2) {
            lemma_first_key(e, k2);
            let j = first_key(e, k2);
            if j == n {
                lemma_first_key_unique(e2, k2, i);
            } else {
                lemma_first_key_unique(e2, k2, j);
            }
        } else {
            assert(!has_key(e2, k2)) by {
                if has_key(e2, k2) {
                    let j = choose|j: int| 0 <= j < e2.len() && e2[j].0 == k2;
                    if j == i {
                        assert(e[n].0 == k2);
                    } else {
                        assert(e[j].0 == k2);
                    }
                }
            }
        }
    }
}

/// Writing keeps the keys unique.
pub proof fn lemma_dict_set_unique(e: Entries, k: Seq<u8>, v: Obj)
    requires
        keys_unique(e),
    ensures
        keys_unique(dict_set(e, k, v)),
{
    if has_key(e, k) {
        lemma_first_key(e, k);
    }
}

impl PdfDict {
    /// An empty dictionary.
    pub fn new() -> (d: PdfDict)
        ensures
            d@ == Seq::<(Seq<u8>, Obj)>::empty(),
    {
        PdfDict { entries: Vec::new() }
    }

    /// The position of the first entry with key `key`.
    pub fn find(&self, key: &[u8]) -> (r: Option<usize>)
        ensures
            match r {
                Some(i) => is_first_key(self@, key@, i as int),
                None => !has_key(self@, key@),
            },
    {
        broadcast use group_views;

        let n = self.entries.len();
        assert(self@.len() == n);
        let mut i: usize = 0;
        while i < n
            invariant
                n == self.entries@.len(),
                n == self@.len(),
                0 <= i <= n,
                forall|j: int| 0 <= j < i ==> (#[trigger] self@[j]).0 != key@,
            decreases n - i,
        {
            proof {
                lemma_entries_view(self.entries@);
            }
            if bytes_eq(self.entries[i].0.as_slice(), key) {
                return Some(i);
            }
            i = i + 1;
        }
        None
    }

    /// The value stored under `key`.
    pub fn get(&self, key: &[u8]) -> (r: Option<&PdfObject>)
        ensures
            match r {
                Some(o) => dict_get(self@, key@) == Some(o@),
                None => dict_get(self@, key@) is None,
            },
    {
        broadcast use group_views;

        match self.find(key) {
            Some(i) => {
                proof {
                    lemma_first_key_unique(self@, key@, i as int);
                }
                Some(&self.entries[i].1)
            },
            None => None,
        }
    }

    /// Stores `value` under `key`.
    pub fn set(&mut self, key: Vec<u8>, value: PdfObject)
        ensures
            final(self)@ == dict_set(old(self)@, key@, value@),
    {
        broadcast use group_views;

        match self.find(key.as_slice()) {
            Some(i) => {
                proof {
                    lemma_first_key_unique(self@, key@, i as int);
                }
                let (k, _) = self.entries.remove(i);
                self.entries.insert(i, (k, value));
                assert(self@ =~= dict_set(old(self)@, key@, value@));
            },
            None => {
                self.entries.push((key, value));
                assert(self@ =~= dict_set(old(self)@, key@, value@));
            },
        }
    }

    /// Stores `value` under the key spelled by `key`.
    pub fn set_str(&mut self, key: &str, value: PdfObject)
        ensures
            final(self)@ == dict_set(old(self)@, key.spec_bytes(), value@),
    {
        self.set(vstd::slice::slice_to_vec(key.as_bytes()), value);
    }

    /// Removes the entry of `key`, handing back its value.
    pub fn remove(&mut self, key: &[u8]) -> (r: Option<PdfObject>)
        ensures
            final(self)@ == dict_remove(old(self)@, key@),
            match r {
                Some(o) => dict_get(old(self)@, key@) == Some(o@),
                None => dict_get(old(self)@, key@) is None,
            },
    {
        broadcast use group_views;

        match self.find(key) {
            Some(i) => {
                proof {
                    lemma_first_key_unique(self@, key@, i as int);
                }
                let (_, v) = self.entries.swap_remove(i);
                assert(self@ =~= dict_remove(old(self)@, key@));
                Some(v)
            },
            None => None,
        }
    }
}

/// Byte-wise equality.
pub fn bytes_eq(a: &[u8], b: &[u8]) -> (r: bool)
    ensures
        r == (a@ == b@),
{
    if a.len() != b.len() {
        return false;
    }
    let mut i: usize = 0;
    while i < a.len()
        invariant
            a@.len() == b@.len(),
            0 <= i <= a@.len(),
            forall|j: int| 0 <= j < i ==> a@[j] == b@[j],
        decreases a@.len() - i,
    {
        if a[i] != b[i] {
            return false;
        }
        i = i + 1;
    }
    assert(a@ =~= b@);
    true
}


impl PdfObject {
    /// The dictionary this object is.
    pub fn as_dict(&self) -> (r: Option<&PdfDict>)
        ensures
            match r {
                Some(d) => self@ == Obj::Dict(d@),
                None => !(self@ is Dict),
            },
    {
        match self {
            PdfObject::Dictionary(d) => Some(d),
            _ => None,
        }
    }

    /// The array this object is.
    pub fn as_array(&self) -> (r: Option<&Vec<PdfObject>>)
        ensures
            match r {
                Some(a) => self@ == Obj::Array(objs_view(a@)),
                None => !(self@ is Array),
            },
    {
        match self {
            PdfObject::Array(a) => Some(a),
            _ => None,
        }
    }

    /// The object this reference points to.
    pub fn as_reference(&self) -> (r: Option<ObjectId>)
        ensures
            match r {
                Some(id) => self@ == Obj::Reference(id),
                None => !(self@ is Reference),
            },
    {
        match self {
            PdfObject::Reference(id) => Some(*id),
            _ => None,
        }
    }

    /// The bytes of this name.
    pub fn as_name(&self) -> (r: Option<&Vec<u8>>)
        ensures
            match r {
                Some(n) => self@ == Obj::Name(n@),
                None => !(self@ is Name),
            },
    {
        match self {
            PdfObject::Name(n) => Some(n),
            _ => None,
        }
    }

    /// The integer this object is.
    pub fn as_integer(&self) -> (r: Option<i64>)
        ensures
            match r {
                Some(n) => self@ == Obj::Integer(n),
                None => !(self@ is Integer),
            },
    {
        match self {
            PdfObject::Integer(n) => Some(*n),
            _ => None,
        }
    }
}

} // verus!
