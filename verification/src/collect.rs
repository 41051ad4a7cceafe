use vstd::prelude::*;
use vstd::string::StringSliceAdditionalSpecFns;
use crate::object::{Entries, Obj, ObjectId, PdfObject, group_views};
use crate::dict::dict_get;
use crate::document::{DocView, PdfDocument, spec_catalog};
use crate::fields::{node_dict, resolve_dict, resolve_object, spec_resolve, spec_resolve_dict};

verus! {

broadcast use {vstd::seq::group_seq_axioms, group_views};

// ---------------------------------------------------------------------------
// The field tree of the interactive form.
// ---------------------------------------------------------------------------

/// The items of the `/Fields` array of the interactive form.
pub open spec fn spec_field_items(d: DocView) -> Seq<Obj> {
    match spec_catalog(d) {
        Ok(c) => match dict_get(c, "AcroForm".spec_bytes()) {
            Some(a) => match spec_resolve_dict(d, a) {
                Some(f) => match dict_get(f, "Fields".spec_bytes()) {
                    Some(x) => match spec_resolve(d, x) {
                        Obj::Array(items) => items,
                        _ => Seq::empty(),
                    },
                    None => Seq::empty(),
                },
                None => Seq::empty(),
            },
            None => Seq::empty(),
        },
        Err(_) => Seq::empty(),
    }
}

/// The items of the `/Kids` array of the dictionary that `id` reaches.
pub open spec fn kids_of(d: DocView, id: ObjectId) -> Seq<Obj> {
    match node_dict(d, id) {
        Some(e) => match dict_get(e, "Kids".spec_bytes()) {
            Some(k) => match spec_resolve(d, k) {
                Obj::Array(items) => items,
                _ => Seq::empty(),
            },
            None => Seq::empty(),
        },
        None => Seq::empty(),
    }
}

/// The ids of the field tree under `id`, depth first, `id` first; descending at most
/// `fuel` levels (`None` if that is not enough).
pub open spec fn tree(d: DocView, id: ObjectId, fuel: nat) -> Option<Seq<ObjectId>>
    decreases fuel, 0nat,
{
    if fuel == 0 {
        None
    } else {
        match forest(d, kids_of(d, id), (fuel - 1) as nat) {
            Some(r) => Some(seq![id] + r),
            None => None,
        }
    }
}

/// The trees under the references among `items`, one after another.
pub open spec fn forest(d: DocView, items: Seq<Obj>, fuel: nat) -> Option<Seq<ObjectId>>
    decreases fuel, items.len(),
{
    if items.len() == 0 {
        Some(Seq::empty())
    } else {
        match forest(d, items.drop_last(), fuel) {
            None => None,
            Some(a) => match items.last() {
                Obj::Reference(k) => match tree(d, k, fuel) {
                    Some(b) => Some(a + b),
                    None => None,
                },
                _ => Some(a),
            },
        }
    }
}

pub proof fn lemma_tree_mono(d: DocView, id: ObjectId, f1: nat, f2: nat)
    requires
        tree(d, id, f1) is Some,
        f1 <= f2,
    ensures
        tree(d, id, f2) == tree(d, id, f1),
    decreases f1, 0nat,
{
    lemma_forest_mono(d, kids_of(d, id), (f1 - 1) as nat, (f2 - 1) as nat);
}

pub proof fn lemma_forest_mono(d: DocView, items: Seq<Obj>, f1: nat, f2: nat)
    requires
        forest(d, items, f1) is Some,
        f1 <= f2,
    ensures
        forest(d, items, f2) == forest(d, items, f1),
    decreases f1, items.len(),
{
    if items.len() > 0 {
        lemma_forest_mono(d, items.drop_last(), f1, f2);
        if let Obj::Reference(k) = items.last() {
            lemma_tree_mono(d, k, f1, f2);
        }
    }
}

pub proof fn lemma_forest_prefix(d: DocView, items: Seq<Obj>, f: nat, i: int)
    requires
        forest(d, items, f) is Some,
        0 <= i <= items.len(),
    ensures
        forest(d, items.take(i), f) is Some,
    decreases items.len() - i,
{
    if i < items.len() {
        assert(items.take(items.len() as int) =~= items);
        lemma_forest_prefix(d, items.drop_last(), f, i);
        assert(items.drop_last().take(i) =~= items.take(i));
    } else {
        assert(items.take(i) =~= items);
    }
}

/// The field tree comes to an end: no field is its own descendant.
pub open spec fn fields_end(d: DocView) -> bool {
    exists|f: nat| forest(d, spec_field_items(d), f) is Some
}

/// The ids of all fields of the interactive form, depth first.
pub open spec fn spec_field_ids(d: DocView) -> Seq<ObjectId> {
    forest(d, spec_field_items(d), choose|f: nat| forest(d, spec_field_items(d), f) is Some).unwrap()
}

/// Adds the ids of the field tree under `id`, depth first.
fn collect_field_tree(doc: &PdfDocument, id: ObjectId, ids: &mut Vec<ObjectId>, Ghost(fuel): Ghost<nat>)
    requires
        tree(doc@, id, fuel) is Some,
    ensures
        final(ids)@ == old(ids)@ + tree(doc@, id, fuel).unwrap(),
    decreases fuel,
{
    let ghost d = doc@;
    let ghost f = (fuel - 1) as nat;
    ids.push(id);
    let ghost start = ids@;
    let obj = match doc.get_object(id) {
        Ok(o) => o,
        Err(_) => {
            assert(ids@ =~= old(ids)@ + tree(d, id, fuel).unwrap());
            return;
        },
    };
    let dict = match obj.as_dict() {
        Some(x) => x,
        None => {
            assert(ids@ =~= old(ids)@ + tree(d, id, fuel).unwrap());
            return;
        },
    };
    let kids = match dict.get("Kids".as_bytes()) {
        Some(k) => k,
        None => {
            assert(ids@ =~= old(ids)@ + tree(d, id, fuel).unwrap());
            return;
        },
    };
    let arr = match resolve_object(doc, kids).as_array() {
        Some(a) => a,
        None => {
            assert(ids@ =~= old(ids)@ + tree(d, id, fuel).unwrap());
            return;
        },
    };
    let ghost items = kids_of(d, id);
    assert(items == crate::object::objs_view(arr@));
    let mut i: usize = 0;
    proof {
        lemma_forest_prefix(d, items, f, 0);
        assert(items.take(0) =~= Seq::<Obj>::empty());
    }
    while i < arr.len()
        invariant
            d == doc@,
            items == crate::object::objs_view(arr@),
            items.len() == arr@.len(),
            0 <= i <= arr@.len(),
            forest(d, items, f) is Some,
            forest(d, items.take(i as int), f) is Some,
            start == old(ids)@.push(id),
            ids@ == start + forest(d, items.take(i as int), f).unwrap(),
            f < fuel,
        decreases arr@.len() - i,
    {
        proof {
            lemma_forest_prefix(d, items, f, i + 1);
            assert(items.take(i + 1).drop_last() =~= items.take(i as int));
        }
        match arr[i].as_reference() {
            Some(k) => {
                let ghost before = ids@;
                collect_field_tree(doc, k, ids, Ghost(f));
                assert(ids@ =~= start + forest(d, items.take(i + 1), f).unwrap());
            },
            None => {},
        }
        i = i + 1;
    }
    assert(items.take(arr@.len() as int) =~= items);
    assert(ids@ =~= old(ids)@ + tree(d, id, fuel).unwrap());
}

/// The ids of all fields of the interactive form: the `/Fields` trees, depth first.
pub fn collect_field_ids(doc: &PdfDocument) -> (r: Vec<ObjectId>)
    requires
        spec_catalog(doc@) is Ok,
        fields_end(doc@),
    ensures
        r@ == spec_field_ids(doc@),
{
    let ghost d = doc@;
    let ghost items = spec_field_items(d);
    let ghost f = choose|f: nat| forest(d, items, f) is Some;
    let mut ids: Vec<ObjectId> = Vec::new();
    let catalog = match doc.catalog() {
        Ok(c) => c,
        Err(_) => return ids,
    };
    let acroform_ref = match catalog.get("AcroForm".as_bytes()) {
        Some(a) => a,
        None => return ids,
    };
    let acroform = match resolve_dict(doc, acroform_ref) {
        Some(a) => a,
        None => return ids,
    };
    let fields = match acroform.get("Fields".as_bytes()) {
        Some(x) => x,
        None => return ids,
    };
    let arr = match resolve_object(doc, fields).as_array() {
        Some(a) => a,
        None => return ids,
    };
    assert(items == crate::object::objs_view(arr@));
    let mut i: usize = 0;
    proof {
        lemma_forest_prefix(d, items, f, 0);
        assert(items.take(0) =~= Seq::<Obj>::empty());
    }
    while i < arr.len()
        invariant
            d == doc@,
            items == crate::object::objs_view(arr@),
            items.len() == arr@.len(),
            0 <= i <= arr@.len(),
            forest(d, items, f) is Some,
            forest(d, items.take(i as int), f) is Some,
            ids@ == forest(d, items.take(i as int), f).unwrap(),
        decreases arr@.len() - i,
    {
        proof {
            lemma_forest_prefix(d, items, f, i + 1);
            assert(items.take(i + 1).drop_last() =~= items.take(i as int));
        }
        match arr[i].as_reference() {
            Some(k) => {
                collect_field_tree(doc, k, &mut ids, Ghost(f));
            },
            None => {},
        }
        i = i + 1;
    }
    assert(items.take(arr@.len() as int) =~= items);
    ids
}

// ---------------------------------------------------------------------------
// Widget annotations of the pages.
// ---------------------------------------------------------------------------

/// The references among `items`, in order.
pub open spec fn refs_in(items: Seq<Obj>) -> Seq<ObjectId>
    decreases items.len(),
{
    if items.len() == 0 {
        Seq::empty()
    } else {
        match items.last() {
            Obj::Reference(k) => refs_in(items.drop_last()).push(k),
            _ => refs_in(items.drop_last()),
        }
    }
}

/// The annotations that the page `p` lists in `/Annots`.
pub open spec fn annots_of(d: DocView, p: ObjectId) -> Seq<ObjectId> {
    match node_dict(d, p) {
        Some(e) => match dict_get(e, "Annots".spec_bytes()) {
            Some(a) => match spec_resolve(d, a) {
                Obj::Array(items) => refs_in(items),
                _ => Seq::empty(),
            },
            None => Seq::empty(),
        },
        None => Seq::empty(),
    }
}

/// The annotations of the pages `ps`, page by page.
pub open spec fn pages_annots(d: DocView, ps: Seq<ObjectId>) -> Seq<ObjectId>
    decreases ps.len(),
{
    if ps.len() == 0 {
        Seq::empty()
    } else {
        pages_annots(d, ps.drop_last()) + annots_of(d, ps.last())
    }
}

/// The annotation ids of all pages, in page order.
pub open spec fn spec_annot_ids(d: DocView) -> Seq<ObjectId> {
    pages_annots(d, d.pages)
}

/// The annotation ids of all pages, in page order (this catches widgets that the
/// field tree does not list).
pub fn collect_page_annotation_ids(doc: &PdfDocument) -> (r: Vec<ObjectId>)
    ensures
        r@ == spec_annot_ids(doc@),
{
    let ghost d = doc@;
    let mut ids: Vec<ObjectId> = Vec::new();
    let mut pi: usize = 0;
    assert(doc.pages@.take(0) =~= Seq::<ObjectId>::empty());
    while pi < doc.pages.len()
        invariant
            d == doc@,
            0 <= pi <= doc.pages@.len(),
            ids@ == pages_annots(d, doc.pages@.take(pi as int)),
        decreases doc.pages@.len() - pi,
    {
        let page_id = doc.pages[pi];
        let ghost start = ids@;
        let ghost pre = doc.pages@.take(pi + 1);
        assert(pre.drop_last() =~= doc.pages@.take(pi as int));
        assert(pre.last() == page_id);
        if let Ok(obj) = doc.get_object(page_id) {
            if let Some(dict) = obj.as_dict() {
                if let Some(annots_obj) = dict.get("Annots".as_bytes()) {
                    if let Some(arr) = resolve_object(doc, annots_obj).as_array() {
                        let ghost items = crate::object::objs_view(arr@);
                        let mut i: usize = 0;
                        assert(items.take(0) =~= Seq::<Obj>::empty());
                        while i < arr.len()
                            invariant
                                items == crate::object::objs_view(arr@),
                                items.len() == arr@.len(),
                                0 <= i <= arr@.len(),
                                ids@ == start + refs_in(items.take(i as int)),
                            decreases arr@.len() - i,
                        {
                            assert(items.take(i + 1).drop_last() =~= items.take(i as int));
                            match arr[i].as_reference() {
                                Some(k) => {
                                    ids.push(k);
                                    assert(ids@ =~= start + refs_in(items.take(i + 1)));
                                },
                                None => {},
                            }
                            i = i + 1;
                        }
                        assert(items.take(arr@.len() as int) =~= items);
                    }
                }
            }
        }
        assert(ids@ =~= pages_annots(d, pre));
        pi = pi + 1;
    }
    assert(doc.pages@.take(doc.pages@.len() as int) =~= doc.pages@);
    ids
}

} // verus!
