use vstd::prelude::*;
use vstd::string::StringSliceAdditionalSpecFns;
use crate::object::{Entries, Obj, ObjectId};
use crate::dict::{dict_get, dict_remove, dict_set, keys_unique, lemma_dict_get_remove, lemma_dict_get_set,
    lemma_dict_set_unique};
use crate::document::{
    DEREF_LIMIT, DocView, PdfError, follow, spec_add_object, spec_catalog, spec_get_object,
    spec_remove_in_object, spec_set_in_object, spec_target, lemma_target, lemma_get_object_replace,
    lemma_get_object_fresh,
};
use crate::fields::{
    Inherited, acroform_da, name_parts, node_dict, parent_of, spec_field_flags, spec_field_name,
    spec_field_type, spec_found, spec_resolve, spec_resolve_dict, spec_walk, stops, walk, walk_ends,
    lemma_walk_fuel,
};
use crate::collect::{
    annots_of, fields_end, forest, kids_of, pages_annots, spec_annot_ids, spec_field_ids,
    spec_field_items, tree, lemma_forest_mono,
};

verus! {

broadcast use vstd::seq::group_seq_axioms;

// ---------------------------------------------------------------------------
// The entries that filling a form writes, and those it only reads.
// ---------------------------------------------------------------------------

/// The keys that filling a form and stripping dropdowns write: `/V`, `/AS`, `/AP`,
/// `/DA`, `/DV` and `/NeedAppearances`. Every other key is kept.
pub open spec fn kept_key(k: Seq<u8>) -> bool {
    &&& k != "V".spec_bytes()
    &&& k != "AS".spec_bytes()
    &&& k != "AP".spec_bytes()
    &&& k != "DA".spec_bytes()
    &&& k != "DV".spec_bytes()
    &&& k != "NeedAppearances".spec_bytes()
}

/// The keys read to find fields, their names and types are all kept.
pub proof fn lemma_kept_keys()
    ensures
        kept_key("T".spec_bytes()),
        kept_key("FT".spec_bytes()),
        kept_key("Ff".spec_bytes()),
        kept_key("Parent".spec_bytes()),
        kept_key("Kids".spec_bytes()),
        kept_key("Fields".spec_bytes()),
        kept_key("AcroForm".spec_bytes()),
        kept_key("Annots".spec_bytes()),
        kept_key("Root".spec_bytes()),
        kept_key("Rect".spec_bytes()),
{
    reveal_strlit("V");
    reveal_strlit("AS");
    reveal_strlit("AP");
    reveal_strlit("DA");
    reveal_strlit("DV");
    reveal_strlit("NeedAppearances");
    reveal_strlit("T");
    reveal_strlit("FT");
    reveal_strlit("Ff");
    reveal_strlit("Parent");
    reveal_strlit("Kids");
    reveal_strlit("Fields");
    reveal_strlit("AcroForm");
    reveal_strlit("Annots");
    reveal_strlit("Root");
    reveal_strlit("Rect");
    vstd::string::is_ascii_spec_bytes("V");
    vstd::string::is_ascii_spec_bytes("AS");
    vstd::string::is_ascii_spec_bytes("AP");
    vstd::string::is_ascii_spec_bytes("DA");
    vstd::string::is_ascii_spec_bytes("DV");
    vstd::string::is_ascii_spec_bytes("NeedAppearances");
    vstd::string::is_ascii_spec_bytes("T");
    vstd::string::is_ascii_spec_bytes("FT");
    vstd::string::is_ascii_spec_bytes("Ff");
    vstd::string::is_ascii_spec_bytes("Parent");
    vstd::string::is_ascii_spec_bytes("Kids");
    vstd::string::is_ascii_spec_bytes("Fields");
    vstd::string::is_ascii_spec_bytes("AcroForm");
    vstd::string::is_ascii_spec_bytes("Annots");
    vstd::string::is_ascii_spec_bytes("Root");
    vstd::string::is_ascii_spec_bytes("Rect");
    assert("T".spec_bytes()[0] != "V".spec_bytes()[0]);
    assert("FT".spec_bytes()[0] != "AS".spec_bytes()[0]);
    assert("FT".spec_bytes()[0] != "AP".spec_bytes()[0]);
    assert("FT".spec_bytes()[0] != "DA".spec_bytes()[0]);
    assert("FT".spec_bytes()[0] != "DV".spec_bytes()[0]);
    assert("Ff".spec_bytes()[0] != "AS".spec_bytes()[0]);
    assert("Ff".spec_bytes()[0] != "AP".spec_bytes()[0]);
    assert("Ff".spec_bytes()[0] != "DA".spec_bytes()[0]);
    assert("Ff".spec_bytes()[0] != "DV".spec_bytes()[0]);
}

/// Two dictionaries agree on every kept key.
pub open spec fn same_kept(e1: Entries, e2: Entries) -> bool {
    forall|k: Seq<u8>| kept_key(k) ==> #[trigger] dict_get(e1, k) == dict_get(e2, k)
}

/// Two objects are equal, or are dictionaries that agree on every kept key.
pub open spec fn agree(o1: Obj, o2: Obj) -> bool {
    ||| o1 == o2
    ||| (o1 is Dict && o2 is Dict && same_kept(o1->Dict_0, o2->Dict_0))
}

/// `d2` has the structure of `d1`: the same trailer and pages, every object of `d1`
/// still there and agreeing with what it was, and only streams added.
pub open spec fn same_structure(d1: DocView, d2: DocView) -> bool {
    &&& d1.trailer == d2.trailer
    &&& d1.pages == d2.pages
    &&& forall|id: ObjectId| #[trigger] d1.objects.contains_key(id) ==> d2.objects.contains_key(id) && agree(
        d1.objects[id],
        d2.objects[id],
    )
    &&& forall|id: ObjectId|
        !d1.objects.contains_key(id) && #[trigger] d2.objects.contains_key(id) ==> d2.objects[id] is Stream
}

/// Every dictionary object has each key once.
pub open spec fn keys_wf(d: DocView) -> bool {
    forall|id: ObjectId|
        #[trigger] d.objects.contains_key(id) && d.objects[id] is Dict ==> keys_unique(d.objects[id]->Dict_0)
}

/// Every dictionary object has each key once, and no object number exceeds `max_id`.
pub open spec fn doc_wf(d: DocView) -> bool {
    &&& forall|id: ObjectId| #[trigger] d.objects.contains_key(id) ==> id.0 <= d.max_id
    &&& keys_wf(d)
}

pub proof fn lemma_same_structure_refl(d: DocView)
    ensures
        same_structure(d, d),
{
}

pub proof fn lemma_same_structure_trans(d1: DocView, d2: DocView, d3: DocView)
    requires
        same_structure(d1, d2),
        same_structure(d2, d3),
    ensures
        same_structure(d1, d3),
{
    assert forall|id: ObjectId| #[trigger] d1.objects.contains_key(id) implies d3.objects.contains_key(id) && agree(
        d1.objects[id],
        d3.objects[id],
    ) by {
        assert(d2.objects.contains_key(id));
        let (o1, o2, o3) = (d1.objects[id], d2.objects[id], d3.objects[id]);
        if o1 is Dict && o3 is Dict {
            assert forall|k: Seq<u8>| kept_key(k) implies #[trigger] dict_get(o1->Dict_0, k) == dict_get(o3->Dict_0, k) by {
                if o1 == o2 {
                } else {
                    assert(dict_get(o1->Dict_0, k) == dict_get(o2->Dict_0, k));
                }
            }
        }
    }
    assert forall|id: ObjectId|
        !d1.objects.contains_key(id) && #[trigger] d3.objects.contains_key(id) implies d3.objects[id] is Stream by {
        if d2.objects.contains_key(id) {
            assert(agree(d2.objects[id], d3.objects[id]));
        }
    }
}

// ---------------------------------------------------------------------------
// Lookups see the same structure.
// ---------------------------------------------------------------------------

/// How a lookup in `d2` relates to the same lookup in `d1`.
pub open spec fn lookups_agree(r1: Result<Obj, PdfError>, r2: Result<Obj, PdfError>) -> bool {
    match (r1, r2) {
        (Ok(x1), Ok(x2)) => agree(x1, x2),
        (Err(_), Err(_)) => true,
        (Err(_), Ok(x2)) => x2 is Stream,
        (Ok(_), Err(_)) => false,
    }
}

proof fn lemma_follow_agree(d1: DocView, d2: DocView, o: Obj, nb: nat)
    requires
        same_structure(d1, d2),
        nb <= DEREF_LIMIT,
    ensures
        lookups_agree(
            match follow(d1.objects, o, nb) {
                Ok((_, x)) => Ok(x),
                Err(e) => Err(e),
            },
            match follow(d2.objects, o, nb) {
                Ok((_, x)) => Ok(x),
                Err(e) => Err(e),
            },
        ),
    decreases DEREF_LIMIT - nb,
{
    if let Obj::Reference(r) = o {
        if d1.objects.contains_key(r) {
            assert(d2.objects.contains_key(r));
            let x1 = d1.objects[r];
            let x2 = d2.objects[r];
            if nb + 1 <= DEREF_LIMIT {
                if x1 == x2 {
                    lemma_follow_agree(d1, d2, x1, nb + 1);
                } else {
                    assert(x1 is Dict && x2 is Dict);
                    reveal_with_fuel(follow, 2);
                }
            }
        } else if d2.objects.contains_key(r) {
            assert(d2.objects[r] is Stream);
            reveal_with_fuel(follow, 2);
        }
    }
}

/// Looking up an id in `d2` finds what it found in `d1`, or a new stream.
pub proof fn lemma_get_object_agree(d1: DocView, d2: DocView, id: ObjectId)
    requires
        same_structure(d1, d2),
    ensures
        lookups_agree(spec_get_object(d1, id), spec_get_object(d2, id)),
{
    if d1.objects.contains_key(id) {
        let x1 = d1.objects[id];
        let x2 = d2.objects[id];
        if x1 == x2 {
            lemma_follow_agree(d1, d2, x1, 0);
        }
    }
}

/// Both reach no dictionary, or dictionaries that agree on the kept keys.
pub open spec fn dicts_agree(a: Option<Entries>, b: Option<Entries>) -> bool {
    match (a, b) {
        (None, None) => true,
        (Some(e1), Some(e2)) => same_kept(e1, e2),
        _ => false,
    }
}

pub proof fn lemma_node_dict_agree(d1: DocView, d2: DocView, id: ObjectId)
    requires
        same_structure(d1, d2),
    ensures
        dicts_agree(node_dict(d1, id), node_dict(d2, id)),
{
    lemma_get_object_agree(d1, d2, id);
}

/// The array an object is or refers to.
pub open spec fn resolve_array(d: DocView, o: Obj) -> Option<Seq<Obj>> {
    match spec_resolve(d, o) {
        Obj::Array(a) => Some(a),
        _ => None,
    }
}

pub proof fn lemma_resolve_agree(d1: DocView, d2: DocView, o: Obj)
    requires
        same_structure(d1, d2),
    ensures
        resolve_array(d1, o) == resolve_array(d2, o),
        dicts_agree(spec_resolve_dict(d1, o), spec_resolve_dict(d2, o)),
{
    if let Obj::Reference(id) = o {
        lemma_get_object_agree(d1, d2, id);
    }
}

pub proof fn lemma_catalog_agree(d1: DocView, d2: DocView)
    requires
        same_structure(d1, d2),
    ensures
        spec_catalog(d1) is Ok <==> spec_catalog(d2) is Ok,
        spec_catalog(d1) is Ok ==> same_kept(spec_catalog(d1)->Ok_0, spec_catalog(d2)->Ok_0),
{
    if let Some(Obj::Reference(r)) = dict_get(d1.trailer, "Root".spec_bytes()) {
        lemma_get_object_agree(d1, d2, r);
    }
}

pub proof fn lemma_field_items_agree(d1: DocView, d2: DocView)
    requires
        same_structure(d1, d2),
    ensures
        spec_field_items(d1) == spec_field_items(d2),
{
    lemma_kept_keys();
    lemma_catalog_agree(d1, d2);
    if let Ok(c1) = spec_catalog(d1) {
        let c2 = spec_catalog(d2)->Ok_0;
        assert(dict_get(c1, "AcroForm".spec_bytes()) == dict_get(c2, "AcroForm".spec_bytes()));
        if let Some(a) = dict_get(c1, "AcroForm".spec_bytes()) {
            lemma_resolve_agree(d1, d2, a);
            if let Some(f1) = spec_resolve_dict(d1, a) {
                let f2 = spec_resolve_dict(d2, a)->Some_0;
                assert(dict_get(f1, "Fields".spec_bytes()) == dict_get(f2, "Fields".spec_bytes()));
                if let Some(x) = dict_get(f1, "Fields".spec_bytes()) {
                    lemma_resolve_agree(d1, d2, x);
                }
            }
        }
    }
}

pub proof fn lemma_kids_agree(d1: DocView, d2: DocView, id: ObjectId)
    requires
        same_structure(d1, d2),
    ensures
        kids_of(d1, id) == kids_of(d2, id),
{
    lemma_kept_keys();
    lemma_node_dict_agree(d1, d2, id);
    if let Some(e1) = node_dict(d1, id) {
        let e2 = node_dict(d2, id)->Some_0;
        assert(dict_get(e1, "Kids".spec_bytes()) == dict_get(e2, "Kids".spec_bytes()));
        if let Some(k) = dict_get(e1, "Kids".spec_bytes()) {
            lemma_resolve_agree(d1, d2, k);
        }
    }
}

pub proof fn lemma_tree_agree(d1: DocView, d2: DocView, id: ObjectId, f: nat)
    requires
        same_structure(d1, d2),
    ensures
        tree(d1, id, f) == tree(d2, id, f),
    decreases f, 0nat,
{
    if f > 0 {
        lemma_kids_agree(d1, d2, id);
        lemma_forest_agree(d1, d2, kids_of(d1, id), (f - 1) as nat);
    }
}

pub proof fn lemma_forest_agree(d1: DocView, d2: DocView, items: Seq<Obj>, f: nat)
    requires
        same_structure(d1, d2),
    ensures
        forest(d1, items, f) == forest(d2, items, f),
    decreases f, items.len(),
{
    if items.len() > 0 {
        lemma_forest_agree(d1, d2, items.drop_last(), f);
        if let Obj::Reference(k) = items.last() {
            lemma_tree_agree(d1, d2, k, f);
        }
    }
}

/// The fields found are the same.
pub proof fn lemma_field_ids_agree(d1: DocView, d2: DocView)
    requires
        same_structure(d1, d2),
    ensures
        fields_end(d1) <==> fields_end(d2),
        spec_field_ids(d1) == spec_field_ids(d2),
{
    lemma_field_items_agree(d1, d2);
    let items = spec_field_items(d1);
    assert forall|f: nat| forest(d1, items, f) == forest(d2, items, f) by {
        lemma_forest_agree(d1, d2, items, f);
    }
    if fields_end(d1) {
        let f1 = choose|f: nat| forest(d1, items, f) is Some;
        let f2 = choose|f: nat| forest(d2, items, f) is Some;
        assert(forest(d2, items, f1) is Some);
        if f1 <= f2 {
            lemma_forest_mono(d1, items, f1, f2);
        } else {
            lemma_forest_mono(d1, items, f2, f1);
        }
    }
}

/// The annotations found are the same.
pub proof fn lemma_annot_ids_agree(d1: DocView, d2: DocView)
    requires
        same_structure(d1, d2),
    ensures
        spec_annot_ids(d1) == spec_annot_ids(d2),
{
    lemma_pages_annots_agree(d1, d2, d1.pages);
}

proof fn lemma_pages_annots_agree(d1: DocView, d2: DocView, ps: Seq<ObjectId>)
    requires
        same_structure(d1, d2),
    ensures
        pages_annots(d1, ps) == pages_annots(d2, ps),
    decreases ps.len(),
{
    if ps.len() > 0 {
        lemma_pages_annots_agree(d1, d2, ps.drop_last());
        let p = ps.last();
        lemma_kept_keys();
        lemma_node_dict_agree(d1, d2, p);
        if let Some(e1) = node_dict(d1, p) {
            let e2 = node_dict(d2, p)->Some_0;
            assert(dict_get(e1, "Annots".spec_bytes()) == dict_get(e2, "Annots".spec_bytes()));
            if let Some(a) = dict_get(e1, "Annots".spec_bytes()) {
                lemma_resolve_agree(d1, d2, a);
            }
        }
        assert(annots_of(d1, p) == annots_of(d2, p));
    }
}

// ---------------------------------------------------------------------------
// Walks up the hierarchy see the same structure.
// ---------------------------------------------------------------------------

/// Dictionary by dictionary, two walks agree on the kept keys.
pub open spec fn walks_agree(a: Seq<Entries>, b: Seq<Entries>) -> bool {
    &&& a.len() == b.len()
    &&& forall|i: int| 0 <= i < a.len() ==> same_kept(#[trigger] a[i], b[i])
}

/// A walk that does not look for `/DA`.
pub open spec fn structural(k: Inherited) -> bool {
    !(k is Appearance)
}

pub proof fn lemma_walk_agree(d1: DocView, d2: DocView, id: ObjectId, f: nat, k: Inherited)
    requires
        same_structure(d1, d2),
        structural(k),
    ensures
        walk(d1, id, f, k) is Some <==> walk(d2, id, f, k) is Some,
        walk(d1, id, f, k) is Some ==> walks_agree(walk(d1, id, f, k)->Some_0, walk(d2, id, f, k)->Some_0),
    decreases f,
{
    if f > 0 {
        lemma_kept_keys();
        lemma_node_dict_agree(d1, d2, id);
        if let Some(e1) = node_dict(d1, id) {
            let e2 = node_dict(d2, id)->Some_0;
            assert(dict_get(e1, "FT".spec_bytes()) == dict_get(e2, "FT".spec_bytes()));
            assert(dict_get(e1, "Ff".spec_bytes()) == dict_get(e2, "Ff".spec_bytes()));
            assert(dict_get(e1, "Parent".spec_bytes()) == dict_get(e2, "Parent".spec_bytes()));
            assert(stops(k, e1) == stops(k, e2));
            assert(parent_of(e1) == parent_of(e2));
            if !stops(k, e1) {
                if let Some(p) = parent_of(e1) {
                    lemma_walk_agree(d1, d2, p, (f - 1) as nat, k);
                    if let Some(r1) = walk(d1, p, (f - 1) as nat, k) {
                        let r2 = walk(d2, p, (f - 1) as nat, k)->Some_0;
                        let (s1, s2) = (seq![e1] + r1, seq![e2] + r2);
                        assert forall|i: int| 0 <= i < s1.len() implies same_kept(#[trigger] s1[i], s2[i]) by {
                            if i > 0 {
                                assert(s1[i] == r1[i - 1]);
                                assert(s2[i] == r2[i - 1]);
                            }
                        }
                    }
                }
            }
        }
    }
}

pub proof fn lemma_spec_walk_agree(d1: DocView, d2: DocView, id: ObjectId, k: Inherited)
    requires
        same_structure(d1, d2),
        structural(k),
    ensures
        walk_ends(d1, id, k) <==> walk_ends(d2, id, k),
        walk_ends(d1, id, k) ==> walks_agree(spec_walk(d1, id, k), spec_walk(d2, id, k)),
{
    if walk_ends(d1, id, k) {
        let f = choose|f: nat| walk(d1, id, f, k) is Some;
        lemma_walk_agree(d1, d2, id, f, k);
        lemma_walk_fuel(d1, id, f, k);
        lemma_walk_fuel(d2, id, f, k);
    }
    if walk_ends(d2, id, k) {
        let f = choose|f: nat| walk(d2, id, f, k) is Some;
        lemma_walk_agree(d1, d2, id, f, k);
    }
}

proof fn lemma_name_parts_agree(a: Seq<Entries>, b: Seq<Entries>)
    requires
        walks_agree(a, b),
    ensures
        name_parts(a) == name_parts(b),
    decreases a.len(),
{
    if a.len() > 0 {
        lemma_kept_keys();
        assert(walks_agree(a.drop_last(), b.drop_last()));
        lemma_name_parts_agree(a.drop_last(), b.drop_last());
        assert(same_kept(a.last(), b.last()));
        assert(dict_get(a.last(), "T".spec_bytes()) == dict_get(b.last(), "T".spec_bytes()));
    }
}

/// Names, types and flags of fields are the same.
pub proof fn lemma_field_info_agree(d1: DocView, d2: DocView, id: ObjectId)
    requires
        same_structure(d1, d2),
        walk_ends(d1, id, Inherited::Nothing),
    ensures
        walk_ends(d2, id, Inherited::Nothing),
        spec_field_name(d1, id) == spec_field_name(d2, id),
        spec_field_type(d1, id) == spec_field_type(d2, id),
        spec_field_flags(d1, id) == spec_field_flags(d2, id),
{
    lemma_kept_keys();
    lemma_spec_walk_agree(d1, d2, id, Inherited::Nothing);
    lemma_name_parts_agree(spec_walk(d1, id, Inherited::Nothing), spec_walk(d2, id, Inherited::Nothing));
    let f = choose|f: nat| walk(d1, id, f, Inherited::Nothing) is Some;
    crate::fields::lemma_walk_stop(d1, id, f, Inherited::FieldType);
    crate::fields::lemma_walk_stop(d1, id, f, Inherited::Flags);
    lemma_spec_walk_agree(d1, d2, id, Inherited::FieldType);
    lemma_spec_walk_agree(d1, d2, id, Inherited::Flags);
    let (t1, t2) = (spec_walk(d1, id, Inherited::FieldType), spec_walk(d2, id, Inherited::FieldType));
    if t1.len() > 0 {
        assert(same_kept(t1.last(), t2.last()));
        assert(dict_get(t1.last(), "FT".spec_bytes()) == dict_get(t2.last(), "FT".spec_bytes()));
    }
    let (g1, g2) = (spec_walk(d1, id, Inherited::Flags), spec_walk(d2, id, Inherited::Flags));
    if g1.len() > 0 {
        assert(same_kept(g1.last(), g2.last()));
        assert(dict_get(g1.last(), "Ff".spec_bytes()) == dict_get(g2.last(), "Ff".spec_bytes()));
    }
}

// ---------------------------------------------------------------------------
// Ids that reach the same object.
// ---------------------------------------------------------------------------

/// Two ids with the same target find the same object.
pub proof fn lemma_same_target_node(d: DocView, a: ObjectId, b: ObjectId)
    requires
        spec_target(d, a) is Ok,
        spec_target(d, a) == spec_target(d, b),
    ensures
        spec_get_object(d, a) == spec_get_object(d, b),
        node_dict(d, a) == node_dict(d, b),
{
    lemma_target(d, a);
    lemma_target(d, b);
}

/// Two ids that find the same dictionary walk up the same way.
pub proof fn lemma_same_node_walk(d: DocView, a: ObjectId, b: ObjectId, f: nat, k: Inherited)
    requires
        node_dict(d, a) == node_dict(d, b),
    ensures
        walk(d, a, f, k) == walk(d, b, f, k),
{
}

/// Two ids that find the same dictionary have the same name, type and flags.
pub proof fn lemma_same_node_info(d: DocView, a: ObjectId, b: ObjectId)
    requires
        node_dict(d, a) == node_dict(d, b),
        walk_ends(d, a, Inherited::Nothing),
    ensures
        walk_ends(d, b, Inherited::Nothing),
        spec_field_name(d, a) == spec_field_name(d, b),
        spec_field_type(d, a) == spec_field_type(d, b),
        spec_field_flags(d, a) == spec_field_flags(d, b),
{
    let f = choose|f: nat| walk(d, a, f, Inherited::Nothing) is Some;
    lemma_same_node_walk(d, a, b, f, Inherited::Nothing);
    lemma_walk_fuel(d, a, f, Inherited::Nothing);
    lemma_walk_fuel(d, b, f, Inherited::Nothing);
    crate::fields::lemma_walk_stop(d, a, f, Inherited::FieldType);
    crate::fields::lemma_walk_stop(d, a, f, Inherited::Flags);
    lemma_same_node_walk(d, a, b, f, Inherited::FieldType);
    lemma_same_node_walk(d, a, b, f, Inherited::Flags);
    lemma_walk_fuel(d, a, f, Inherited::FieldType);
    lemma_walk_fuel(d, b, f, Inherited::FieldType);
    lemma_walk_fuel(d, a, f, Inherited::Flags);
    lemma_walk_fuel(d, b, f, Inherited::Flags);
}

/// After storing under `k` in the dictionary that `id` reaches, the ids with the same
/// target find the dictionary with the entry stored, and the others what they found.
pub proof fn lemma_node_after_set(d: DocView, id: ObjectId, k: Seq<u8>, v: Obj, id2: ObjectId)
    ensures
        spec_target(spec_set_in_object(d, id, k, v), id2) == spec_target(d, id2),
        node_dict(spec_set_in_object(d, id, k, v), id2) == if node_dict(d, id) is Some && spec_target(d, id2)
            == spec_target(d, id) {
            Some(dict_set(node_dict(d, id)->Some_0, k, v))
        } else {
            node_dict(d, id2)
        },
{
    lemma_target(d, id);
    if let Ok(t) = spec_target(d, id) {
        if let Obj::Dict(e) = d.objects[t] {
            lemma_get_object_replace(d, t, Obj::Dict(dict_set(e, k, v)), id2);
        }
    }
}

/// After removing `k` from the dictionary that `id` reaches, the ids with the same
/// target find the dictionary without it, and the others what they found.
pub proof fn lemma_node_after_remove(d: DocView, id: ObjectId, k: Seq<u8>, id2: ObjectId)
    ensures
        spec_target(spec_remove_in_object(d, id, k), id2) == spec_target(d, id2),
        node_dict(spec_remove_in_object(d, id, k), id2) == if node_dict(d, id) is Some && spec_target(d, id2)
            == spec_target(d, id) {
            Some(dict_remove(node_dict(d, id)->Some_0, k))
        } else {
            node_dict(d, id2)
        },
{
    lemma_target(d, id);
    if let Ok(t) = spec_target(d, id) {
        if let Obj::Dict(e) = d.objects[t] {
            lemma_get_object_replace(d, t, Obj::Dict(dict_remove(e, k)), id2);
        }
    }
}

/// Adding an object under the next free number changes no dictionary that an id finds.
pub proof fn lemma_node_after_add(d: DocView, o: Obj, id2: ObjectId)
    requires
        doc_wf(d),
        d.max_id < u32::MAX,
        node_dict(d, id2) is Some,
    ensures
        node_dict(spec_add_object(d, o), id2) == node_dict(d, id2),
        spec_target(spec_add_object(d, o), id2) == spec_target(d, id2),
{
    let n = ((d.max_id + 1) as u32, 0u16);
    assert(!d.objects.contains_key(n));
    lemma_get_object_fresh(d, n, o, id2);
}

// ---------------------------------------------------------------------------
// The steps of filling keep the structure.
// ---------------------------------------------------------------------------

/// Writing a value under a key that is not kept keeps the structure.
pub proof fn lemma_set_keeps_structure(d: DocView, id: ObjectId, k: Seq<u8>, v: Obj)
    requires
        doc_wf(d),
        !kept_key(k),
    ensures
        same_structure(d, spec_set_in_object(d, id, k, v)),
        doc_wf(spec_set_in_object(d, id, k, v)),
        spec_set_in_object(d, id, k, v).max_id == d.max_id,
{
    let d2 = spec_set_in_object(d, id, k, v);
    lemma_target(d, id);
    if let Ok(t) = spec_target(d, id) {
        if let Obj::Dict(e) = d.objects[t] {
            assert forall|k2: Seq<u8>| kept_key(k2) implies #[trigger] dict_get(e, k2) == dict_get(dict_set(e, k, v), k2) by {
                lemma_dict_get_set(e, k, v, k2);
            }
            lemma_dict_set_unique(e, k, v);
            assert(agree(d.objects[t], d2.objects[t]));
            assert forall|id2: ObjectId| #[trigger] d.objects.contains_key(id2) implies d2.objects.contains_key(id2) && agree(
                d.objects[id2],
                d2.objects[id2],
            ) by {
                if id2 != t {
                    assert(d2.objects[id2] == d.objects[id2]);
                }
            }
        }
    }
}

/// Removing a key that is not kept keeps the structure.
pub proof fn lemma_remove_keeps_structure(d: DocView, id: ObjectId, k: Seq<u8>)
    requires
        keys_wf(d),
        !kept_key(k),
    ensures
        same_structure(d, spec_remove_in_object(d, id, k)),
        keys_wf(spec_remove_in_object(d, id, k)),
        doc_wf(d) ==> doc_wf(spec_remove_in_object(d, id, k)),
        spec_remove_in_object(d, id, k).max_id == d.max_id,
{
    let d2 = spec_remove_in_object(d, id, k);
    lemma_target(d, id);
    if let Ok(t) = spec_target(d, id) {
        if let Obj::Dict(e) = d.objects[t] {
            assert(keys_unique(e));
            assert forall|k2: Seq<u8>| kept_key(k2) implies #[trigger] dict_get(e, k2) == dict_get(dict_remove(e, k), k2) by {
                lemma_dict_get_remove(e, k, k2);
            }
            lemma_dict_get_remove(e, k, k);
            assert(agree(d.objects[t], d2.objects[t]));
            assert forall|id2: ObjectId| #[trigger] d.objects.contains_key(id2) implies d2.objects.contains_key(id2) && agree(
                d.objects[id2],
                d2.objects[id2],
            ) by {
                if id2 != t {
                    assert(d2.objects[id2] == d.objects[id2]);
                }
            }
        }
    }
}

/// Adding a stream under a new object number keeps the structure.
pub proof fn lemma_add_keeps_structure(d: DocView, o: Obj)
    requires
        doc_wf(d),
        d.max_id < u32::MAX,
        o is Stream,
    ensures
        same_structure(d, spec_add_object(d, o)),
        doc_wf(spec_add_object(d, o)),
{
    let d2 = spec_add_object(d, o);
    let nid = ((d.max_id + 1) as u32, 0u16);
    assert(!d.objects.contains_key(nid));
    assert forall|id2: ObjectId| #[trigger] d.objects.contains_key(id2) implies d2.objects.contains_key(id2) && agree(
        d.objects[id2],
        d2.objects[id2],
    ) by {
        assert(id2 != nid);
    }
}

} // verus!
