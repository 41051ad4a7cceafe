use vstd::prelude::*;
use vstd::string::StringSliceAdditionalSpecFns;
use crate::object::{Obj, PdfObject, PdfDict, Entries, ObjectId, obj_view, group_views};
use crate::dict::{dict_get, dict_set, dict_remove};

verus! {

broadcast use {vstd::seq::group_seq_axioms, group_views};

// ---------------------------------------------------------------------------
// Documents: indirect objects keyed by id, and the trailer.
// ---------------------------------------------------------------------------

/// Why an object could not be reached.
#[derive(Debug, PartialEq, Eq)]
pub enum PdfError {
    /// No object has this id.
    ObjectNotFound(ObjectId),
    /// A chain of references is longer than `DEREF_LIMIT`.
    ReferenceLimit,
    /// A dictionary has no such key.
    DictKey,
    /// An object is not of the expected kind.
    ObjectType,
}

/// How many references are followed, one after another, before giving up.
pub const DEREF_LIMIT: u32 = 128;

/// A PDF document: its indirect objects, its trailer, the highest object number
/// handed out so far, and its pages in page-tree order.
#[derive(Debug)]
pub struct PdfDocument {
    /// The indirect objects; where an id occurs twice, the later entry counts.
    pub objects: Vec<(ObjectId, PdfObject)>,
    pub trailer: PdfDict,
    pub max_id: u32,
    /// The page objects in page-tree order, as the reader of the file found them.
    pub pages: Vec<ObjectId>,
}

/// The mathematical value of a document.
pub struct DocView {
    pub objects: Map<ObjectId, Obj>,
    pub trailer: Entries,
    pub max_id: u32,
    pub pages: Seq<ObjectId>,
}

pub open spec fn table_view(s: Seq<(ObjectId, PdfObject)>) -> Map<ObjectId, Obj>
    decreases s.len(),
{
    if s.len() == 0 {
        Map::empty()
    } else {
        table_view(s.drop_last()).insert(s.last().0, obj_view(s.last().1))
    }
}

impl View for PdfDocument {
    type V = DocView;

    open spec fn view(&self) -> DocView {
        DocView {
            objects: table_view(self.objects@),
            trailer: self.trailer@,
            max_id: self.max_id,
            pages: self.pages@,
        }
    }
}

/// `i` is the last position of `id` in `s`.
pub open spec fn is_last_id(s: Seq<(ObjectId, PdfObject)>, id: ObjectId, i: int) -> bool {
    &&& 0 <= i < s.len()
    &&& s[i].0 == id
    &&& forall|j: int| i < j < s.len() ==> s[j].0 != id
}

pub proof fn lemma_table_absent(s: Seq<(ObjectId, PdfObject)>, id: ObjectId)
    requires
        forall|j: int| 0 <= j < s.len() ==> s[j].0 != id,
    ensures
        !table_view(s).contains_key(id),
    decreases s.len(),
{
    if s.len() > 0 {
        lemma_table_absent(s.drop_last(), id);
    }
}

pub proof fn lemma_table_last(s: Seq<(ObjectId, PdfObject)>, id: ObjectId, i: int)
    requires
        is_last_id(s, id, i),
    ensures
        table_view(s).contains_key(id),
        table_view(s)[id] == obj_view(s[i].1),
    decreases s.len(),
{
    if i < s.len() - 1 {
        lemma_table_last(s.drop_last(), id, i);
    }
}

pub proof fn lemma_table_update(s: Seq<(ObjectId, PdfObject)>, id: ObjectId, i: int, o: PdfObject)
    requires
        is_last_id(s, id, i),
    ensures
        table_view(s.update(i, (id, o))) == table_view(s).insert(id, obj_view(o)),
    decreases s.len(),
{
    let s2 = s.update(i, (id, o));
    if i == s.len() - 1 {
        assert(s2.drop_last() =~= s.drop_last());
        assert(table_view(s2) =~= table_view(s).insert(id, obj_view(o)));
    } else {
        lemma_table_update(s.drop_last(), id, i, o);
        assert(s2.drop_last() =~= s.drop_last().update(i, (id, o)));
        assert(table_view(s2) =~= table_view(s).insert(id, obj_view(o)));
    }
}

/// Following references from `o`, `nb` of them followed so far: the id of the last
/// reference followed (if any) and the object reached.
pub open spec fn follow(objs: Map<ObjectId, Obj>, o: Obj, nb: nat) -> Result<(Option<ObjectId>, Obj), PdfError>
    decreases DEREF_LIMIT - nb,
{
    match o {
        Obj::Reference(r) => {
            if !objs.contains_key(r) {
                Err(PdfError::ObjectNotFound(r))
            } else if nb + 1 > DEREF_LIMIT {
                Err(PdfError::ReferenceLimit)
            } else {
                match follow(objs, objs[r], nb + 1) {
                    Ok((last, x)) => Ok((
                        match last {
                            Some(l) => Some(l),
                            None => Some(r),
                        },
                        x,
                    )),
                    Err(e) => Err(e),
                }
            }
        },
        _ => Ok((None, o)),
    }
}

/// The object with id `id`, references followed.
pub open spec fn spec_get_object(d: DocView, id: ObjectId) -> Result<Obj, PdfError> {
    if !d.objects.contains_key(id) {
        Err(PdfError::ObjectNotFound(id))
    } else {
        match follow(d.objects, d.objects[id], 0) {
            Ok((_, x)) => Ok(x),
            Err(e) => Err(e),
        }
    }
}

/// The id of the object that `get_object(id)` reaches.
pub open spec fn spec_target(d: DocView, id: ObjectId) -> Result<ObjectId, PdfError> {
    if !d.objects.contains_key(id) {
        Err(PdfError::ObjectNotFound(id))
    } else {
        match follow(d.objects, d.objects[id], 0) {
            Ok((Some(t), _)) => Ok(t),
            Ok((None, _)) => Ok(id),
            Err(e) => Err(e),
        }
    }
}

pub proof fn lemma_follow_end(objs: Map<ObjectId, Obj>, o: Obj, nb: nat)
    requires
        nb <= DEREF_LIMIT,
    ensures
        follow(objs, o, nb) matches Ok((last, x)) ==> {
            &&& !(x is Reference)
            &&& (last matches Some(t) ==> objs.contains_key(t) && objs[t] == x)
            &&& (last is None ==> x == o)
        },
    decreases DEREF_LIMIT - nb,
{
    if let Obj::Reference(r) = o {
        if objs.contains_key(r) && nb + 1 <= DEREF_LIMIT {
            lemma_follow_end(objs, objs[r], nb + 1);
        }
    }
}

/// The target of a successful lookup holds the object that the lookup returns.
pub proof fn lemma_target(d: DocView, id: ObjectId)
    ensures
        spec_target(d, id) is Ok <==> spec_get_object(d, id) is Ok,
        spec_target(d, id) matches Ok(t) ==> d.objects.contains_key(t) && spec_get_object(d, id)
            == Ok::<Obj, PdfError>(d.objects[t]),
{
    if d.objects.contains_key(id) {
        lemma_follow_end(d.objects, d.objects[id], 0);
    }
}

/// The dictionary of the document catalog.
pub open spec fn spec_catalog(d: DocView) -> Result<Entries, PdfError> {
    match dict_get(d.trailer, "Root".spec_bytes()) {
        None => Err(PdfError::DictKey),
        Some(Obj::Reference(r)) => match spec_get_object(d, r) {
            Ok(Obj::Dict(e)) => Ok(e),
            Ok(_) => Err(PdfError::ObjectType),
            Err(e) => Err(e),
        },
        Some(_) => Err(PdfError::ObjectType),
    }
}

/// Storing `v` under `k` in the dictionary that `id` reaches; nothing changes
/// where `id` reaches no dictionary.
pub open spec fn spec_set_in_object(d: DocView, id: ObjectId, k: Seq<u8>, v: Obj) -> DocView {
    match spec_target(d, id) {
        Ok(t) => match d.objects[t] {
            Obj::Dict(e) => DocView { objects: d.objects.insert(t, Obj::Dict(dict_set(e, k, v))), ..d },
            _ => d,
        },
        Err(_) => d,
    }
}

/// Removing `k` from the dictionary that `id` reaches.
pub open spec fn spec_remove_in_object(d: DocView, id: ObjectId, k: Seq<u8>) -> DocView {
    match spec_target(d, id) {
        Ok(t) => match d.objects[t] {
            Obj::Dict(e) => DocView { objects: d.objects.insert(t, Obj::Dict(dict_remove(e, k))), ..d },
            _ => d,
        },
        Err(_) => d,
    }
}

/// Adding an object under the next free object number.
pub open spec fn spec_add_object(d: DocView, o: Obj) -> DocView {
    DocView {
        objects: d.objects.insert(((d.max_id + 1) as u32, 0u16), o),
        max_id: (d.max_id + 1) as u32,
        ..d
    }
}

/// Following references after the object of `t`, which is no reference, was replaced
/// by another object that is no reference: the same path, ending at the new object
/// where it ended at `t`.
pub proof fn lemma_follow_replace(objs: Map<ObjectId, Obj>, t: ObjectId, x: Obj, o: Obj, nb: nat)
    requires
        objs.contains_key(t),
        !(objs[t] is Reference),
        !(x is Reference),
        nb <= DEREF_LIMIT,
    ensures
        follow(objs.insert(t, x), o, nb) == match follow(objs, o, nb) {
            Ok((last, y)) => Ok((
                last,
                if last == Some(t) {
                    x
                } else {
                    y
                },
            )),
            Err(e) => Err(e),
        },
    decreases DEREF_LIMIT - nb,
{
    let objs2 = objs.insert(t, x);
    if let Obj::Reference(r) = o {
        if objs.contains_key(r) && nb + 1 <= DEREF_LIMIT {
            if r == t {
                assert(follow(objs2, x, nb + 1) == Ok::<(Option<ObjectId>, Obj), PdfError>((None, x)));
                assert(follow(objs, objs[t], nb + 1) == Ok::<(Option<ObjectId>, Obj), PdfError>((None, objs[t])));
            } else {
                lemma_follow_replace(objs, t, x, objs[r], nb + 1);
            }
        }
    }
}

/// Following references that succeeded is not changed by adding an object under an
/// id that was not there.
pub proof fn lemma_follow_fresh(objs: Map<ObjectId, Obj>, n: ObjectId, x: Obj, o: Obj, nb: nat)
    requires
        !objs.contains_key(n),
        follow(objs, o, nb) is Ok,
        nb <= DEREF_LIMIT,
    ensures
        follow(objs.insert(n, x), o, nb) == follow(objs, o, nb),
    decreases DEREF_LIMIT - nb,
{
    if let Obj::Reference(r) = o {
        if objs.contains_key(r) && nb + 1 <= DEREF_LIMIT {
            lemma_follow_fresh(objs, n, x, objs[r], nb + 1);
        }
    }
}

/// Replacing the object of `t` (no reference) by another that is no reference keeps
/// every target, and a lookup that reached `t` now finds the new object.
pub proof fn lemma_get_object_replace(d: DocView, t: ObjectId, x: Obj, id: ObjectId)
    requires
        d.objects.contains_key(t),
        !(d.objects[t] is Reference),
        !(x is Reference),
    ensures
        spec_target(DocView { objects: d.objects.insert(t, x), ..d }, id) == spec_target(d, id),
        spec_get_object(DocView { objects: d.objects.insert(t, x), ..d }, id) == if spec_target(d, id) == Ok::<
            ObjectId,
            PdfError,
        >(t) {
            Ok::<Obj, PdfError>(x)
        } else {
            spec_get_object(d, id)
        },
{
    let d2 = DocView { objects: d.objects.insert(t, x), ..d };
    if d.objects.contains_key(id) {
        if id == t {
            assert(follow(d2.objects, x, 0) == Ok::<(Option<ObjectId>, Obj), PdfError>((None, x)));
            assert(follow(d.objects, d.objects[t], 0) == Ok::<(Option<ObjectId>, Obj), PdfError>(
                (None, d.objects[t]),
            ));
        } else {
            lemma_follow_replace(d.objects, t, x, d.objects[id], 0);
        }
    }
}

/// Adding an object under an id that was not there changes no lookup that succeeded.
pub proof fn lemma_get_object_fresh(d: DocView, n: ObjectId, x: Obj, id: ObjectId)
    requires
        !d.objects.contains_key(n),
        spec_get_object(d, id) is Ok,
    ensures
        spec_get_object(DocView { objects: d.objects.insert(n, x), ..d }, id) == spec_get_object(d, id),
        spec_target(DocView { objects: d.objects.insert(n, x), ..d }, id) == spec_target(d, id),
{
    lemma_follow_fresh(d.objects, n, x, d.objects[id], 0);
}

impl PdfDocument {
    /// An empty document.
    pub fn new() -> (doc: PdfDocument)
        ensures
            doc@.objects == Map::<ObjectId, Obj>::empty(),
            doc@.trailer == Seq::<(Seq<u8>, Obj)>::empty(),
            doc@.max_id == 0,
            doc@.pages == Seq::<ObjectId>::empty(),
    {
        let doc = PdfDocument { objects: Vec::new(), trailer: PdfDict::new(), max_id: 0, pages: Vec::new() };
        assert(doc@.objects =~= Map::<ObjectId, Obj>::empty());
        doc
    }

    /// The last position of `id` among the objects.
    pub fn position(&self, id: ObjectId) -> (r: Option<usize>)
        ensures
            match r {
                Some(i) => is_last_id(self.objects@, id, i as int),
                None => forall|j: int| 0 <= j < self.objects@.len() ==> self.objects@[j].0 != id,
            },
            r is Some <==> self@.objects.contains_key(id),
            r matches Some(i) ==> self@.objects[id] == self.objects@[i as int].1@,
    {
        let mut i = self.objects.len();
        while i > 0
            invariant
                0 <= i <= self.objects@.len(),
                forall|j: int| i <= j < self.objects@.len() ==> self.objects@[j].0 != id,
            decreases i,
        {
            i = i - 1;
            let oid = self.objects[i].0;
            if oid.0 == id.0 && oid.1 == id.1 {
                proof {
                    lemma_table_last(self.objects@, id, i as int);
                }
                return Some(i);
            }
        }
        proof {
            lemma_table_absent(self.objects@, id);
        }
        None
    }

    /// Follows references from `id`: the id of the object reached.
    pub fn target(&self, id: ObjectId) -> (r: Result<ObjectId, PdfError>)
        ensures
            r == spec_target(self@, id),
    {
        let ghost objs = self@.objects;
        let mut cur = match self.position(id) {
            Some(i) => i,
            None => return Err(PdfError::ObjectNotFound(id)),
        };
        let mut last: Option<ObjectId> = None;
        let mut nb: u32 = 0;
        loop
            invariant
                objs == self@.objects,
                nb <= DEREF_LIMIT,
                0 <= cur < self.objects@.len(),
                objs.contains_key(id),
                self.objects@[cur as int].1@ == objs[self.objects@[cur as int].0],
                objs.contains_key(self.objects@[cur as int].0),
                follow(objs, objs[id], 0) == match follow(objs, self.objects@[cur as int].1@, nb as nat) {
                    Ok((l, x)) => Ok((
                        match l {
                            Some(l2) => Some(l2),
                            None => last,
                        },
                        x,
                    )),
                    Err(e) => Err(e),
                },
                last is None ==> nb == 0,
                last is None ==> self.objects@[cur as int].0 == id,
            decreases DEREF_LIMIT - nb,
        {
            match self.objects[cur].1.as_reference() {
                Some(r) => {
                    let ghost here = self.objects@[cur as int].1@;
                    let next = match self.position(r) {
                        Some(i) => i,
                        None => {
                            assert(here == Obj::Reference(r));
                            assert(!objs.contains_key(r));
                            assert(follow(objs, here, nb as nat) == Err::<(Option<ObjectId>, Obj), PdfError>(
                                PdfError::ObjectNotFound(r),
                            ));
                            return Err(PdfError::ObjectNotFound(r));
                        },
                    };
                    if nb + 1 > DEREF_LIMIT {
                        assert(follow(objs, here, nb as nat) == Err::<(Option<ObjectId>, Obj), PdfError>(
                            PdfError::ReferenceLimit,
                        ));
                        return Err(PdfError::ReferenceLimit);
                    }
                    nb = nb + 1;
                    cur = next;
                    last = Some(r);
                },
                None => {
                    return match last {
                        Some(l) => Ok(l),
                        None => Ok(id),
                    };
                },
            }
        }
    }

    /// The object with id `id`, references followed.
    pub fn get_object(&self, id: ObjectId) -> (r: Result<&PdfObject, PdfError>)
        ensures
            match r {
                Ok(o) => spec_get_object(self@, id) == Ok::<Obj, PdfError>(o@),
                Err(e) => spec_get_object(self@, id) == Err::<Obj, PdfError>(e),
            },
    {
        proof {
            lemma_target(self@, id);
        }
        match self.target(id) {
            Ok(t) => {
                let i = self.position(t).unwrap();
                Ok(&self.objects[i].1)
            },
            Err(e) => Err(e),
        }
    }

    /// The dictionary of the document catalog.
    pub fn catalog(&self) -> (r: Result<&PdfDict, PdfError>)
        ensures
            match r {
                Ok(c) => spec_catalog(self@) == Ok::<Entries, PdfError>(c@),
                Err(e) => spec_catalog(self@) == Err::<Entries, PdfError>(e),
            },
    {
        match self.trailer.get("Root".as_bytes()) {
            None => Err(PdfError::DictKey),
            Some(root) => match root.as_reference() {
                None => Err(PdfError::ObjectType),
                Some(r) => match self.get_object(r) {
                    Ok(o) => match o.as_dict() {
                        Some(c) => Ok(c),
                        None => Err(PdfError::ObjectType),
                    },
                    Err(e) => Err(e),
                },
            },
        }
    }

    /// Replaces the object at position `i` by `o`.
    fn replace_at(&mut self, i: usize, o: PdfObject)
        requires
            0 <= i < old(self).objects@.len(),
            is_last_id(old(self).objects@, old(self).objects@[i as int].0, i as int),
        ensures
            final(self)@ == (DocView {
                objects: old(self)@.objects.insert(old(self).objects@[i as int].0, o@),
                ..old(self)@
            }),
            final(self).objects@.len() == old(self).objects@.len(),
    {
        let (oid, _) = self.objects.remove(i);
        self.objects.insert(i, (oid, o));
        proof {
            assert(self.objects@ =~= old(self).objects@.update(i as int, (oid, o)));
            lemma_table_update(old(self).objects@, oid, i as int, o);
        }
    }

    /// Stores `value` under `key` in the dictionary that `id` reaches, if it reaches one.
    pub fn set_in_object(&mut self, id: ObjectId, key: Vec<u8>, value: PdfObject)
        ensures
            final(self)@ == spec_set_in_object(old(self)@, id, key@, value@),
    {
        proof {
            lemma_target(self@, id);
        }
        let t = match self.target(id) {
            Ok(t) => t,
            Err(_) => return,
        };
        let i = self.position(t).unwrap();
        let (oid, o) = self.objects.remove(i);
        let ghost removed = self.objects@;
        match o {
            PdfObject::Dictionary(mut d) => {
                d.set(key, value);
                self.objects.insert(i, (oid, PdfObject::Dictionary(d)));
                proof {
                    assert(self.objects@ =~= old(self).objects@.update(i as int, (oid, PdfObject::Dictionary(d))));
                    lemma_table_update(old(self).objects@, oid, i as int, PdfObject::Dictionary(d));
                }
            },
            other => {
                self.objects.insert(i, (oid, other));
                proof {
                    assert(self.objects@ =~= old(self).objects@);
                }
            },
        }
    }

    /// Removes `key` from the dictionary that `id` reaches, if it reaches one.
    pub fn remove_in_object(&mut self, id: ObjectId, key: &[u8])
        ensures
            final(self)@ == spec_remove_in_object(old(self)@, id, key@),
    {
        proof {
            lemma_target(self@, id);
        }
        let t = match self.target(id) {
            Ok(t) => t,
            Err(_) => return,
        };
        let i = self.position(t).unwrap();
        let (oid, o) = self.objects.remove(i);
        match o {
            PdfObject::Dictionary(mut d) => {
                let _ = d.remove(key);
                self.objects.insert(i, (oid, PdfObject::Dictionary(d)));
                proof {
                    assert(self.objects@ =~= old(self).objects@.update(i as int, (oid, PdfObject::Dictionary(d))));
                    lemma_table_update(old(self).objects@, oid, i as int, PdfObject::Dictionary(d));
                }
            },
            other => {
                self.objects.insert(i, (oid, other));
                proof {
                    assert(self.objects@ =~= old(self).objects@);
                }
            },
        }
    }

    /// Hands out the next object number.
    pub fn new_object_id(&mut self) -> (id: ObjectId)
        requires
            old(self).max_id < u32::MAX,
        ensures
            id == ((old(self).max_id + 1) as u32, 0u16),
            final(self)@ == (DocView { max_id: id.0, ..old(self)@ }),
    {
        self.max_id = self.max_id + 1;
        (self.max_id, 0)
    }

    /// Adds `o` under the next object number, and returns its id.
    pub fn add_object(&mut self, o: PdfObject) -> (id: ObjectId)
        requires
            old(self).max_id < u32::MAX,
        ensures
            id == ((old(self).max_id + 1) as u32, 0u16),
            final(self)@ == spec_add_object(old(self)@, o@),
    {
        let id = self.new_object_id();
        self.set_object(id, o);
        id
    }

    /// Stores `o` under `id`, replacing what was there.
    pub fn set_object(&mut self, id: ObjectId, o: PdfObject)
        ensures
            final(self)@ == (DocView { objects: old(self)@.objects.insert(id, o@), ..old(self)@ }),
    {
        match self.position(id) {
            Some(i) => {
                self.replace_at(i, o);
            },
            None => {
                self.objects.push((id, o));
                proof {
                    assert(self.objects@.drop_last() =~= old(self).objects@);
                }
            },
        }
    }
}

} // verus!
