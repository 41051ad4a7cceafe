use vstd::prelude::*;
use crate::object::{Obj, ObjectId, PdfDict, PdfObject, group_views, lemma_entries_view, lemma_objs_view, objs_view};
use crate::dict::{bytes_eq, keys_unique};
use crate::document::{DocView, PdfDocument, is_last_id, spec_catalog, table_view};
use crate::fields::{Inherited, resolve_dict, resolve_object, walk, walk_ends};
use crate::collect::{
    collect_field_ids, collect_page_annotation_ids, fields_end, forest, kids_of, spec_field_items, tree,
};
use crate::names::{spec_all_ids, walks_end};
use crate::structure::doc_wf;

verus! {

broadcast use {vstd::seq::group_seq_axioms, group_views};

// ---------------------------------------------------------------------------
// Walks that end within a number of steps.
// ---------------------------------------------------------------------------

/// Whether the walk up from `id` through `/Parent` ends within `fuel` steps.
pub fn walk_within(doc: &PdfDocument, id: ObjectId, fuel: usize) -> (r: bool)
    ensures
        r == (walk(doc@, id, fuel as nat, Inherited::Nothing) is Some),
        r ==> walk_ends(doc@, id, Inherited::Nothing),
{
    let ghost d = doc@;
    let mut c: ObjectId = id;
    let mut n: usize = 0;
    while n < fuel
        invariant
            d == doc@,
            0 <= n <= fuel,
            (walk(d, id, fuel as nat, Inherited::Nothing) is Some) == (walk(
                d,
                c,
                (fuel - n) as nat,
                Inherited::Nothing,
            ) is Some),
        decreases fuel - n,
    {
        let dict = match doc.get_object(c) {
            Ok(o) => match o.as_dict() {
                Some(x) => x,
                None => {
                    proof {
                        crate::fields::lemma_walk_fuel(d, id, fuel as nat, Inherited::Nothing);
                    }
                    return true;
                },
            },
            Err(_) => {
                proof {
                    crate::fields::lemma_walk_fuel(d, id, fuel as nat, Inherited::Nothing);
                }
                return true;
            },
        };
        let next = match dict.get("Parent".as_bytes()) {
            Some(p) => p.as_reference(),
            None => None,
        };
        match next {
            None => {
                proof {
                    crate::fields::lemma_walk_fuel(d, id, fuel as nat, Inherited::Nothing);
                }
                return true;
            },
            Some(p) => {
                c = p;
            },
        }
        n = n + 1;
    }
    false
}

// ---------------------------------------------------------------------------
// Field trees that end within a depth.
// ---------------------------------------------------------------------------

/// Whether the field tree under `id` ends within `fuel` levels.
pub fn tree_within(doc: &PdfDocument, id: ObjectId, fuel: usize) -> (r: bool)
    ensures
        r == (tree(doc@, id, fuel as nat) is Some),
    decreases fuel, 0nat,
{
    if fuel == 0 {
        return false;
    }
    let f = fuel - 1;
    let empty: Vec<PdfObject> = Vec::new();
    proof {
        assert(objs_view(empty@) =~= Seq::<Obj>::empty());
    }
    let obj = match doc.get_object(id) {
        Ok(o) => o,
        Err(_) => return forest_within(doc, &empty, f),
    };
    let dict = match obj.as_dict() {
        Some(x) => x,
        None => return forest_within(doc, &empty, f),
    };
    let kids = match dict.get("Kids".as_bytes()) {
        Some(k) => k,
        None => return forest_within(doc, &empty, f),
    };
    match resolve_object(doc, kids).as_array() {
        Some(a) => forest_within(doc, a, f),
        None => forest_within(doc, &empty, f),
    }
}

/// Whether the trees under the references among `items` end within `fuel` levels.
pub fn forest_within(doc: &PdfDocument, items: &Vec<PdfObject>, fuel: usize) -> (r: bool)
    ensures
        r == (forest(doc@, objs_view(items@), fuel as nat) is Some),
    decreases fuel, 1nat,
{
    let ghost d = doc@;
    let ghost its = objs_view(items@);
    let mut i: usize = 0;
    assert(its.take(0) =~= Seq::<Obj>::empty());
    while i < items.len()
        invariant
            d == doc@,
            its == objs_view(items@),
            its.len() == items@.len(),
            0 <= i <= items@.len(),
            forest(d, its.take(i as int), fuel as nat) is Some,
        decreases items@.len() - i,
    {
        assert(its.take(i + 1).drop_last() =~= its.take(i as int));
        match items[i].as_reference() {
            Some(k) => {
                if !tree_within(doc, k, fuel) {
                    proof {
                        if forest(d, its, fuel as nat) is Some {
                            crate::collect::lemma_forest_prefix(d, its, fuel as nat, i + 1);
                        }
                    }
                    return false;
                }
            },
            None => {},
        }
        i = i + 1;
    }
    assert(its.take(items@.len() as int) =~= its);
    true
}

/// Whether the field tree of the interactive form ends within `fuel` levels.
fn fields_within(doc: &PdfDocument, fuel: usize) -> (r: bool)
    ensures
        r == (forest(doc@, spec_field_items(doc@), fuel as nat) is Some),
{
    let ghost d = doc@;
    let empty: Vec<PdfObject> = Vec::new();
    proof {
        assert(objs_view(empty@) =~= Seq::<Obj>::empty());
        assert(forest(d, Seq::<Obj>::empty(), fuel as nat) is Some);
    }
    let catalog = match doc.catalog() {
        Ok(c) => c,
        Err(_) => return true,
    };
    let acroform_ref = match catalog.get("AcroForm".as_bytes()) {
        Some(a) => a,
        None => return true,
    };
    let acroform = match resolve_dict(doc, acroform_ref) {
        Some(a) => a,
        None => return true,
    };
    let fields = match acroform.get("Fields".as_bytes()) {
        Some(x) => x,
        None => return true,
    };
    match resolve_object(doc, fields).as_array() {
        Some(a) => forest_within(doc, a, fuel),
        None => true,
    }
}

// ---------------------------------------------------------------------------
// Documents that can be listed and filled.
// ---------------------------------------------------------------------------

/// The fields can be listed, every walk taking at most `fuel` steps: there is a
/// catalog, the field tree is at most `fuel` levels deep, and the `/Parent` chain above
/// each field or widget ends within `fuel` steps.
pub open spec fn walkable_within(d: DocView, fuel: nat) -> bool {
    &&& spec_catalog(d) is Ok
    &&& forest(d, spec_field_items(d), fuel) is Some
    &&& forall|k: int| 0 <= k < spec_all_ids(d).len() ==> walk(d, #[trigger] spec_all_ids(d)[k], fuel, Inherited::Nothing) is Some
}

/// Whether the fields of `doc` can be listed with walks of at most `fuel` steps. With
/// `fuel` above the number of objects, a walk that takes longer repeats an object and
/// never ends.
pub fn walkable(doc: &PdfDocument, fuel: usize) -> (r: bool)
    ensures
        r == walkable_within(doc@, fuel as nat),
        r ==> walks_end(doc@),
{
    let ghost d = doc@;
    if doc.catalog().is_err() {
        return false;
    }
    if !fields_within(doc, fuel) {
        return false;
    }
    let mut ids = collect_field_ids(doc);
    let annots = collect_page_annotation_ids(doc);
    crate::text::push_all(&mut ids, annots.as_slice());
    let mut i: usize = 0;
    while i < ids.len()
        invariant
            d == doc@,
            ids@ == spec_all_ids(d),
            0 <= i <= ids@.len(),
            forall|k: int| 0 <= k < i ==> walk(d, #[trigger] spec_all_ids(d)[k], fuel as nat, Inherited::Nothing) is Some,
        decreases ids@.len() - i,
    {
        if !walk_within(doc, ids[i], fuel) {
            assert(!(walk(d, spec_all_ids(d)[i as int], fuel as nat, Inherited::Nothing) is Some));
            return false;
        }
        i = i + 1;
    }
    proof {
        assert forall|k: int| 0 <= k < spec_all_ids(d).len() implies walk_ends(
            d,
            #[trigger] spec_all_ids(d)[k],
            Inherited::Nothing,
        ) by {
            crate::fields::lemma_walk_fuel(d, spec_all_ids(d)[k], fuel as nat, Inherited::Nothing);
        }
    }
    true
}

/// Each key of the dictionary `e` occurs once.
pub fn unique_keys(e: &PdfDict) -> (r: bool)
    ensures
        r == keys_unique(e@),
{
    let n = e.entries.len();
    proof {
        lemma_entries_view(e.entries@);
    }
    let mut i: usize = 0;
    while i < n
        invariant
            n == e.entries@.len(),
            n == e@.len(),
            0 <= i <= n,
            forall|a: int, b: int| 0 <= a < b < n && a < i ==> e@[a].0 != e@[b].0,
        decreases n - i,
    {
        let mut j: usize = i + 1;
        while j < n
            invariant
                n == e.entries@.len(),
                n == e@.len(),
                0 <= i < n,
                i < j <= n,
                forall|a: int, b: int| 0 <= a < b < n && a < i ==> e@[a].0 != e@[b].0,
                forall|b: int| i < b < j ==> e@[i as int].0 != e@[b].0,
            decreases n - j,
        {
            if bytes_eq(e.entries[i].0.as_slice(), e.entries[j].0.as_slice()) {
                assert(e@[i as int].0 == e@[j as int].0);
                return false;
            }
            j = j + 1;
        }
        i = i + 1;
    }
    true
}

/// An id in the table of objects is at one of its positions.
proof fn lemma_table_has(s: Seq<(ObjectId, PdfObject)>, id: ObjectId)
    requires
        table_view(s).contains_key(id),
    ensures
        exists|i: int| is_last_id(s, id, i) && table_view(s)[id] == s[i].1@,
    decreases s.len(),
{
    if s.len() == 0 {
    } else if s.last().0 == id {
        assert(is_last_id(s, id, s.len() - 1));
    } else {
        lemma_table_has(s.drop_last(), id);
        let i = choose|i: int| is_last_id(s.drop_last(), id, i) && table_view(s.drop_last())[id] == s.drop_last()[i].1@;
        assert forall|j: int| i < j < s.len() implies s[j].0 != id by {
            if j < s.len() - 1 {
                assert(s.drop_last()[j] == s[j]);
            }
        }
        assert(s.drop_last()[i] == s[i]);
        assert(is_last_id(s, id, i));
    }
}

/// Every object number held is at most `max_id`, and every dictionary object held has
/// each key once.
pub open spec fn objects_wf(objects: Seq<(ObjectId, PdfObject)>, max_id: u32) -> bool {
    forall|k: int|
        0 <= k < objects.len() ==> (#[trigger] objects[k]).0.0 <= max_id && (objects[k].1@ is Dict ==> keys_unique(
            objects[k].1@->Dict_0,
        ))
}

/// Whether every object number is at most `max_id` and every dictionary object has each
/// key once.
pub fn well_formed(doc: &PdfDocument) -> (r: bool)
    ensures
        r == objects_wf(doc.objects@, doc.max_id),
        r ==> doc_wf(doc@),
{
    let ghost d = doc@;
    let mut i: usize = 0;
    while i < doc.objects.len()
        invariant
            d == doc@,
            0 <= i <= doc.objects@.len(),
            forall|k: int|
                0 <= k < i ==> (#[trigger] doc.objects@[k]).0.0 <= doc.max_id && (doc.objects@[k].1@ is Dict
                    ==> keys_unique(doc.objects@[k].1@->Dict_0)),
        decreases doc.objects@.len() - i,
    {
        if doc.objects[i].0.0 > doc.max_id {
            assert(!(doc.objects@[i as int].0.0 <= doc.max_id));
            return false;
        }
        match &doc.objects[i].1 {
            PdfObject::Dictionary(e) => {
                if !unique_keys(e) {
                    assert(!keys_unique(doc.objects@[i as int].1@->Dict_0));
                    return false;
                }
            },
            _ => {},
        }
        i = i + 1;
    }
    assert forall|id: ObjectId| #[trigger] d.objects.contains_key(id) implies id.0 <= d.max_id && (d.objects[id] is Dict
        ==> keys_unique(d.objects[id]->Dict_0)) by {
        lemma_table_has(doc.objects@, id);
    }
    true
}

/// Whether `doc` can be filled: its fields can be listed with walks of at most `fuel`
/// steps, it is well formed, and there are object numbers left for an appearance stream
/// per field and widget.
pub fn ready_to_fill(doc: &PdfDocument, fuel: usize) -> (r: bool)
    ensures
        r == (walkable_within(doc@, fuel as nat) && objects_wf(doc.objects@, doc.max_id) && doc@.max_id
            + spec_all_ids(doc@).len() <= u32::MAX),
        r ==> walks_end(doc@) && doc_wf(doc@),
{
    if !walkable(doc, fuel) || !well_formed(doc) {
        return false;
    }
    let ids = collect_field_ids(doc);
    let annots = collect_page_annotation_ids(doc);
    let room = u32::MAX - doc.max_id;
    ids.len() <= room as usize && annots.len() <= room as usize - ids.len()
}

} // verus!
