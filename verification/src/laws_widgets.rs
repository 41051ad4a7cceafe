use vstd::prelude::*;
use vstd::string::StringSliceAdditionalSpecFns;
use vstd::utf8::encode_utf8;
use crate::object::{Entries, Obj, ObjectId};
use crate::dict::{dict_get, dict_set, lemma_dict_get_set};
use crate::document::{DocView, spec_add_object, spec_catalog, spec_set_in_object, spec_target, lemma_target};
use crate::fields::{Inherited, node_dict, spec_field_type, walk, walk_ends};
use crate::collect::{spec_annot_ids, spec_field_ids};
use crate::names::{spec_all_ids, walks_end};
use crate::text::spec_string_value;
use crate::appearance::{
    Layout, LayoutRequest, helv_da, spec_appearance, spec_appearance_stream, spec_field_rect, spec_install,
};
use crate::fill::{
    fill_fold, fill_step, helv_da_object, normalize_fold, own_da, spec_filled, spec_set_field_value, step_value,
    type_is, lemma_set_field_value_keeps, lemma_appearance_keeps,
};
use crate::structure::{
    doc_wf, dicts_agree, same_structure, lemma_field_info_agree, lemma_kept_keys, lemma_node_after_add,
    lemma_node_after_set, lemma_node_dict_agree, lemma_resolve_agree, lemma_same_node_info,
    lemma_same_structure_refl, lemma_same_structure_trans, lemma_same_target_node,
};
use crate::laws::{lemma_filled_stages, lemma_fill_fold_keeps, lemma_keys_differ};

verus! {

broadcast use vstd::seq::group_seq_axioms;

/// The appearance keys differ from the others written while filling.
proof fn lemma_ap_keys_differ()
    ensures
        "AP".spec_bytes() != "V".spec_bytes(),
        "AP".spec_bytes() != "AS".spec_bytes(),
        "AP".spec_bytes() != "DA".spec_bytes(),
        "AP".spec_bytes() != "NeedAppearances".spec_bytes(),
        "DA".spec_bytes() != "V".spec_bytes(),
        "DA".spec_bytes() != "AS".spec_bytes(),
        "DA".spec_bytes() != "NeedAppearances".spec_bytes(),
{
    lemma_keys_differ();
    reveal_strlit("AS");
    reveal_strlit("AP");
    reveal_strlit("DA");
    vstd::string::is_ascii_spec_bytes("AS");
    vstd::string::is_ascii_spec_bytes("AP");
    vstd::string::is_ascii_spec_bytes("DA");
    assert("AP".spec_bytes()[1] != "AS".spec_bytes()[1]);
    assert("AP".spec_bytes()[0] != "DA".spec_bytes()[0]);
    assert("DA".spec_bytes()[0] != "AS".spec_bytes()[0]);
}

/// Storing under a key other than `key` keeps the entry `key` of every dictionary.
proof fn lemma_set_other_keeps_entry(d: DocView, id2: ObjectId, k: Seq<u8>, x: Obj, id: ObjectId, key: Seq<u8>)
    requires
        k != key,
        node_dict(d, id) is Some,
    ensures
        node_dict(spec_set_in_object(d, id2, k, x), id) is Some,
        dict_get(node_dict(spec_set_in_object(d, id2, k, x), id)->Some_0, key) == dict_get(
            node_dict(d, id)->Some_0,
            key,
        ),
{
    lemma_node_after_set(d, id2, k, x, id);
    if node_dict(d, id2) is Some && spec_target(d, id) == spec_target(d, id2) {
        lemma_target(d, id2);
        lemma_same_target_node(d, id2, id);
        lemma_dict_get_set(node_dict(d, id)->Some_0, k, x, key);
    }
}

/// Storing in a dictionary leaves every stream object as it was.
proof fn lemma_set_keeps_stream(d: DocView, id2: ObjectId, k: Seq<u8>, x: Obj, r: ObjectId)
    requires
        d.objects.contains_key(r),
        d.objects[r] is Stream,
    ensures
        spec_set_in_object(d, id2, k, x).objects.contains_key(r),
        spec_set_in_object(d, id2, k, x).objects[r] == d.objects[r],
{
}

// ---------------------------------------------------------------------------
// Filled text fields get an appearance stream.
// ---------------------------------------------------------------------------

/// `e` has an `/AP` whose `/N` refers to a stream object of `d`.
pub open spec fn ap_stream_ref(d: DocView, e: Entries) -> bool {
    match dict_get(e, "AP".spec_bytes()) {
        Some(Obj::Dict(ap)) => match dict_get(ap, "N".spec_bytes()) {
            Some(Obj::Reference(r)) => d.objects.contains_key(r) && d.objects[r] is Stream,
            _ => false,
        },
        _ => false,
    }
}

/// The dictionary that `id` reaches has an appearance stream.
pub open spec fn has_appearance_stream(d: DocView, id: ObjectId) -> bool {
    match node_dict(d, id) {
        Some(e) => ap_stream_ref(d, e),
        None => false,
    }
}

proof fn lemma_set_keeps_ap(d: DocView, id2: ObjectId, k: Seq<u8>, x: Obj, id: ObjectId)
    requires
        k != "AP".spec_bytes(),
        has_appearance_stream(d, id),
    ensures
        has_appearance_stream(spec_set_in_object(d, id2, k, x), id),
{
    lemma_set_other_keeps_entry(d, id2, k, x, id, "AP".spec_bytes());
    let e = node_dict(d, id)->Some_0;
    if let Some(Obj::Dict(ap)) = dict_get(e, "AP".spec_bytes()) {
        if let Some(Obj::Reference(r)) = dict_get(ap, "N".spec_bytes()) {
            lemma_set_keeps_stream(d, id2, k, x, r);
        }
    }
}

proof fn lemma_add_keeps_ap(d: DocView, o: Obj, id: ObjectId)
    requires
        doc_wf(d),
        d.max_id < u32::MAX,
        has_appearance_stream(d, id),
    ensures
        has_appearance_stream(spec_add_object(d, o), id),
{
    lemma_node_after_add(d, o, id);
}

/// Generating an appearance for `id2` keeps the appearance stream of `id`, and gives
/// `id` one where it has the target of `id2`.
proof fn lemma_appearance_gives_ap(d: DocView, id2: ObjectId, v2: Seq<char>, l: Layout, id: ObjectId)
    requires
        doc_wf(d),
        d.max_id < u32::MAX,
        has_appearance_stream(d, id) || (spec_field_rect(d, id2) is Some && crate::fields::spec_da_string(d, id2)
            is Some && node_dict(d, id) is Some && spec_target(d, id) == spec_target(d, id2)),
    ensures
        has_appearance_stream(spec_appearance(d, id2, v2, l), id),
{
    if spec_field_rect(d, id2) is Some && crate::fields::spec_da_string(d, id2) is Some {
        lemma_ap_keys_differ();
        let multiline = crate::appearance::is_multiline(crate::fields::spec_field_flags(d, id2), v2);
        let content = encode_utf8(crate::appearance::spec_content(v2, multiline, l));
        let so = spec_appearance_stream(l, content);
        let n = ((d.max_id + 1) as u32, 0u16);
        let d1 = spec_add_object(d, so);
        let ap = dict_set(Seq::empty(), "N".spec_bytes(), Obj::Reference(n));
        let d2 = spec_set_in_object(d1, id2, "AP".spec_bytes(), Obj::Dict(ap));
        assert(node_dict(d, id2) is Some);
        lemma_node_after_add(d, so, id2);
        assert(!d.objects.contains_key(n));
        assert(d1.objects[n] is Stream);
        if node_dict(d, id) is Some {
            lemma_node_after_add(d, so, id);
        }
        if has_appearance_stream(d, id) {
            lemma_add_keeps_ap(d, so, id);
        }
        lemma_node_after_set(d1, id2, "AP".spec_bytes(), Obj::Dict(ap), id);
        lemma_set_keeps_stream(d1, id2, "AP".spec_bytes(), Obj::Dict(ap), n);
        if node_dict(d1, id) is Some && spec_target(d1, id) == spec_target(d1, id2) {
            let e2 = dict_set(node_dict(d1, id2)->Some_0, "AP".spec_bytes(), Obj::Dict(ap));
            lemma_dict_get_set(node_dict(d1, id2)->Some_0, "AP".spec_bytes(), Obj::Dict(ap), "AP".spec_bytes());
            lemma_dict_get_set(Seq::empty(), "N".spec_bytes(), Obj::Reference(n), "N".spec_bytes());
            assert(node_dict(d2, id) == Some(e2));
            assert(has_appearance_stream(d2, id));
        } else {
            assert(has_appearance_stream(d1, id));
            let e = node_dict(d1, id)->Some_0;
            if let Some(Obj::Dict(ap0)) = dict_get(e, "AP".spec_bytes()) {
                if let Some(Obj::Reference(r)) = dict_get(ap0, "N".spec_bytes()) {
                    lemma_set_keeps_stream(d1, id2, "AP".spec_bytes(), Obj::Dict(ap), r);
                }
            }
            assert(has_appearance_stream(d2, id));
        }
        lemma_set_keeps_ap(d2, id2, "DA".spec_bytes(), helv_da_object(l.font_size@), id);
        assert(spec_install(d, id2, l, content) == spec_set_in_object(
            d2,
            id2,
            "DA".spec_bytes(),
            helv_da_object(l.font_size@),
        ));
    }
}

/// A `/DA` that selects Helvetica reads as text.
proof fn lemma_helv_readable(size: Seq<char>)
    ensures
        spec_string_value(helv_da_object(size)) is Some,
{
    let t = helv_da(size);
    let b = encode_utf8(t);
    reveal_strlit("/Helv ");
    assert(t[0] == '/');
    assert(t =~= seq![t[0]] + t.drop_first());
    assert(b == vstd::utf8::encode_scalar(t[0] as u32) + encode_utf8(t.drop_first()));
    assert(('/' as u32) == 0x2F);
    assert((0x2Fu32 & 0x7Fu32) as u8 == 0x2Fu8) by (bit_vector);
    assert(b[0] == vstd::utf8::leading_byte_width_1(0x2Fu32));
    assert(b[0] == 0x2Fu8);
}

/// `id` reaches a dictionary with a `/DA` of its own that reads as text.
pub open spec fn has_own_da(d: DocView, id: ObjectId) -> bool {
    own_da(d, id) is Some
}

proof fn lemma_set_keeps_own_da(d: DocView, id2: ObjectId, k: Seq<u8>, x: Obj, id: ObjectId)
    requires
        has_own_da(d, id),
        k != "DA".spec_bytes() || spec_string_value(x) is Some,
    ensures
        has_own_da(spec_set_in_object(d, id2, k, x), id),
{
    lemma_node_after_set(d, id2, k, x, id);
    if node_dict(d, id2) is Some && spec_target(d, id) == spec_target(d, id2) {
        lemma_target(d, id2);
        lemma_same_target_node(d, id2, id);
        lemma_dict_get_set(node_dict(d, id)->Some_0, k, x, "DA".spec_bytes());
    }
}

/// A `/DA` of its own gives a field a default appearance.
proof fn lemma_own_da_found(d: DocView, id: ObjectId)
    requires
        has_own_da(d, id),
    ensures
        crate::fields::spec_da_string(d, id) is Some,
{
    let e = node_dict(d, id)->Some_0;
    assert(crate::fields::stops(Inherited::Appearance, e));
    assert(walk(d, id, 1, Inherited::Appearance) == Some(seq![e]));
    crate::fields::lemma_walk_fuel(d, id, 1, Inherited::Appearance);
}

/// The rectangle of a widget is the same in documents of the same structure.
proof fn lemma_rect_agree(d1: DocView, d2: DocView, id: ObjectId)
    requires
        same_structure(d1, d2),
    ensures
        spec_field_rect(d1, id) == spec_field_rect(d2, id),
{
    lemma_kept_keys();
    lemma_node_dict_agree(d1, d2, id);
    if let Some(e1) = node_dict(d1, id) {
        let e2 = node_dict(d2, id)->Some_0;
        assert(dict_get(e1, "Rect".spec_bytes()) == dict_get(e2, "Rect".spec_bytes()));
        if let Some(r) = dict_get(e1, "Rect".spec_bytes()) {
            lemma_resolve_agree(d1, d2, r);
        }
    }
}

/// Storing a value keeps a `/DA` of its own, and an appearance stream.
proof fn lemma_set_field_value_keeps_da_ap(d: DocView, id2: ObjectId, v2: Seq<char>, id: ObjectId)
    ensures
        has_own_da(d, id) ==> has_own_da(spec_set_field_value(d, id2, v2), id),
        has_appearance_stream(d, id) ==> has_appearance_stream(spec_set_field_value(d, id2, v2), id),
{
    lemma_ap_keys_differ();
    let n = Obj::Name(encode_utf8(v2));
    if type_is(spec_field_type(d, id2), "Btn"@) {
        let d1 = spec_set_in_object(d, id2, "V".spec_bytes(), n);
        if has_own_da(d, id) {
            lemma_set_keeps_own_da(d, id2, "V".spec_bytes(), n, id);
            lemma_set_keeps_own_da(d1, id2, "AS".spec_bytes(), n, id);
        }
        if has_appearance_stream(d, id) {
            lemma_set_keeps_ap(d, id2, "V".spec_bytes(), n, id);
            lemma_set_keeps_ap(d1, id2, "AS".spec_bytes(), n, id);
        }
    } else {
        let x = crate::text::spec_text_string(v2);
        if has_own_da(d, id) {
            lemma_set_keeps_own_da(d, id2, "V".spec_bytes(), x, id);
        }
        if has_appearance_stream(d, id) {
            lemma_set_keeps_ap(d, id2, "V".spec_bytes(), x, id);
        }
    }
}

/// Generating an appearance keeps a `/DA` of its own.
proof fn lemma_appearance_keeps_own_da(d: DocView, id2: ObjectId, v2: Seq<char>, l: Layout, id: ObjectId)
    requires
        doc_wf(d),
        d.max_id < u32::MAX,
        has_own_da(d, id),
    ensures
        has_own_da(spec_appearance(d, id2, v2, l), id),
{
    if spec_field_rect(d, id2) is Some && crate::fields::spec_da_string(d, id2) is Some {
        lemma_ap_keys_differ();
        let multiline = crate::appearance::is_multiline(crate::fields::spec_field_flags(d, id2), v2);
        let content = encode_utf8(crate::appearance::spec_content(v2, multiline, l));
        let so = spec_appearance_stream(l, content);
        let d1 = spec_add_object(d, so);
        let ap = Obj::Dict(dict_set(Seq::empty(), "N".spec_bytes(), Obj::Reference(((d.max_id + 1) as u32, 0u16))));
        let d2 = spec_set_in_object(d1, id2, "AP".spec_bytes(), ap);
        lemma_node_after_add(d, so, id);
        lemma_set_keeps_own_da(d1, id2, "AP".spec_bytes(), ap, id);
        lemma_helv_readable(l.font_size@);
        lemma_set_keeps_own_da(d2, id2, "DA".spec_bytes(), helv_da_object(l.font_size@), id);
        assert(spec_install(d, id2, l, content) == spec_set_in_object(
            d2,
            id2,
            "DA".spec_bytes(),
            helv_da_object(l.font_size@),
        ));
    }
}

/// Filling any widget keeps a `/DA` of its own and an appearance stream.
proof fn lemma_fill_step_keeps_da_ap(d: DocView, data: Seq<(Seq<char>, Seq<char>)>, id2: ObjectId, l: Layout, id: ObjectId)
    requires
        doc_wf(d),
        d.max_id < u32::MAX,
    ensures
        has_own_da(d, id) ==> has_own_da(fill_step(d, data, id2, l), id),
        has_appearance_stream(d, id) ==> has_appearance_stream(fill_step(d, data, id2, l), id),
{
    if let Some(v2) = step_value(d, data, id2) {
        let d1 = spec_set_field_value(d, id2, v2);
        lemma_set_field_value_keeps(d, id2, v2);
        lemma_set_field_value_keeps_da_ap(d, id2, v2, id);
        if !type_is(spec_field_type(d1, id2), "Btn"@) {
            if has_own_da(d1, id) {
                lemma_appearance_keeps_own_da(d1, id2, v2, l, id);
            }
            if has_appearance_stream(d1, id) {
                lemma_appearance_gives_ap(d1, id2, v2, l, id);
            }
        }
    }
}

/// Filling `id` itself gives it an appearance stream, where it is not a button and has
/// a rectangle and a `/DA` of its own.
proof fn lemma_fill_step_gives_ap(d: DocView, data: Seq<(Seq<char>, Seq<char>)>, id: ObjectId, l: Layout)
    requires
        doc_wf(d),
        d.max_id < u32::MAX,
        walk_ends(d, id, Inherited::Nothing),
        step_value(d, data, id) is Some,
        !type_is(spec_field_type(d, id), "Btn"@),
        spec_field_rect(d, id) is Some,
        has_own_da(d, id),
    ensures
        has_appearance_stream(fill_step(d, data, id, l), id),
{
    let v = step_value(d, data, id)->Some_0;
    let d1 = spec_set_field_value(d, id, v);
    lemma_set_field_value_keeps(d, id, v);
    lemma_set_field_value_keeps_da_ap(d, id, v, id);
    lemma_field_info_agree(d, d1, id);
    lemma_rect_agree(d, d1, id);
    lemma_own_da_found(d1, id);
    lemma_target(d1, id);
    lemma_appearance_gives_ap(d1, id, v, l, id);
}

/// Filling keeps a `/DA` of its own.
proof fn lemma_fill_fold_keeps_own_da(
    d: DocView,
    data: Seq<(Seq<char>, Seq<char>)>,
    ids: Seq<ObjectId>,
    ls: Seq<Layout>,
    id: ObjectId,
)
    requires
        doc_wf(d),
        d.max_id + ids.len() <= u32::MAX,
        has_own_da(d, id),
    ensures
        has_own_da(fill_fold(d, data, ids, ls), id),
    decreases ids.len(),
{
    if ids.len() > 0 {
        lemma_fill_fold_keeps_own_da(d, data, ids.drop_last(), ls.drop_last(), id);
        lemma_fill_fold_keeps(d, data, ids.drop_last(), ls.drop_last());
        lemma_fill_step_keeps_da_ap(fill_fold(d, data, ids.drop_last(), ls.drop_last()), data, ids.last(), ls.last(), id);
    }
}

/// After filling `ids`, `id` has an appearance stream: it had one, or it is among `ids`.
proof fn lemma_fill_fold_ap(
    d0: DocView,
    d: DocView,
    data: Seq<(Seq<char>, Seq<char>)>,
    ids: Seq<ObjectId>,
    ls: Seq<Layout>,
    id: ObjectId,
)
    requires
        doc_wf(d),
        d.max_id + ids.len() <= u32::MAX,
        same_structure(d0, d),
        walk_ends(d0, id, Inherited::Nothing),
        step_value(d0, data, id) is Some,
        !type_is(spec_field_type(d0, id), "Btn"@),
        spec_field_rect(d0, id) is Some,
        has_appearance_stream(d, id) || (ids.contains(id) && has_own_da(d, id)),
    ensures
        has_appearance_stream(fill_fold(d, data, ids, ls), id),
    decreases ids.len(),
{
    if ids.len() > 0 {
        let prev = fill_fold(d, data, ids.drop_last(), ls.drop_last());
        lemma_fill_fold_keeps(d, data, ids.drop_last(), ls.drop_last());
        lemma_same_structure_trans(d0, d, prev);
        if has_appearance_stream(d, id) || ids.drop_last().contains(id) {
            lemma_fill_fold_ap(d0, d, data, ids.drop_last(), ls.drop_last(), id);
            lemma_fill_step_keeps_da_ap(prev, data, ids.last(), ls.last(), id);
        } else {
            assert(ids.last() == id) by {
                let k = choose|k: int| 0 <= k < ids.len() && ids[k] == id;
                if k < ids.len() - 1 {
                    assert(ids.drop_last()[k] == id);
                }
            }
            lemma_fill_fold_keeps_own_da(d, data, ids.drop_last(), ls.drop_last(), id);
            lemma_field_info_agree(d0, prev, id);
            lemma_rect_agree(d0, prev, id);
            lemma_fill_step_gives_ap(prev, data, id, ls.last());
        }
    }
}

/// Rewriting default appearances keeps appearance streams.
proof fn lemma_normalize_fold_keeps_ap(d: DocView, ids: Seq<ObjectId>, sizes: Seq<String>, id: ObjectId)
    requires
        has_appearance_stream(d, id),
    ensures
        has_appearance_stream(normalize_fold(d, ids, sizes), id),
    decreases ids.len(),
{
    if ids.len() > 0 {
        lemma_normalize_fold_keeps_ap(d, ids.drop_last(), sizes.drop_last(), id);
        lemma_ap_keys_differ();
        lemma_set_keeps_ap(
            normalize_fold(d, ids.drop_last(), sizes.drop_last()),
            ids.last(),
            "DA".spec_bytes(),
            helv_da_object(sizes.last()@),
            id,
        );
    }
}

/// After filling, every filled field or widget that is not a button, and has a
/// rectangle and a readable `/DA` of its own, has an appearance: its `/AP` refers by
/// `/N` to a stream object.
pub proof fn law_fill_pdf_appearances<L: Fn(LayoutRequest) -> Layout, S: Fn(Option<String>) -> String>(
    layout: L,
    size_text: S,
    d: DocView,
    data: Seq<(Seq<char>, Seq<char>)>,
    ls1: Seq<Layout>,
    ls2: Seq<Layout>,
    sizes: Seq<String>,
    f: DocView,
    id: ObjectId,
)
    requires
        doc_wf(d),
        walks_end(d),
        d.max_id + spec_all_ids(d).len() <= u32::MAX,
        spec_filled(layout, size_text, d, data, ls1, ls2, sizes, f),
        spec_all_ids(d).contains(id),
        step_value(d, data, id) is Some,
        !type_is(spec_field_type(d, id), "Btn"@),
        spec_field_rect(d, id) is Some,
        has_own_da(d, id),
    ensures
        has_appearance_stream(f, id),
{
    lemma_filled_stages(layout, size_text, d, data, ls1, ls2, sizes, f);
    let fids = spec_field_ids(d);
    let a = fill_fold(d, data, fids, ls1);
    let aids = spec_annot_ids(a);
    let b = fill_fold(a, data, aids, ls2);
    let c = normalize_fold(b, spec_all_ids(b), sizes);
    let k = choose|k: int| 0 <= k < spec_all_ids(d).len() && spec_all_ids(d)[k] == id;
    assert(walk_ends(d, spec_all_ids(d)[k], Inherited::Nothing));
    lemma_same_structure_refl(d);
    lemma_fill_fold_keeps_own_da(d, data, fids, ls1, id);
    if k < fids.len() {
        assert(fids[k] == id);
        lemma_fill_fold_ap(d, d, data, fids, ls1, id);
        lemma_fill_fold_ap(d, a, data, aids, ls2, id);
    } else {
        assert(aids[k - fids.len()] == id);
        lemma_fill_fold_ap(d, a, data, aids, ls2, id);
    }
    lemma_normalize_fold_keeps_ap(b, spec_all_ids(b), sizes, id);
    lemma_ap_keys_differ();
    if let Ok(cat) = spec_catalog(c) {
        if let Some(Obj::Reference(af)) = dict_get(cat, "AcroForm".spec_bytes()) {
            lemma_set_keeps_ap(c, af, "NeedAppearances".spec_bytes(), Obj::Boolean(true), id);
        }
    }
}

// ---------------------------------------------------------------------------
// Buttons keep their appearances.
// ---------------------------------------------------------------------------

/// The `/AP` entry of the dictionary that `id` reaches, where it reaches one.
pub open spec fn ap_entry(d: DocView, id: ObjectId) -> Option<Option<Obj>> {
    match node_dict(d, id) {
        Some(e) => Some(dict_get(e, "AP".spec_bytes())),
        None => None,
    }
}

/// Filling any widget keeps the `/AP` entry of a button.
proof fn lemma_fill_step_keeps_button_ap(d: DocView, data: Seq<(Seq<char>, Seq<char>)>, id2: ObjectId, l: Layout, id: ObjectId)
    requires
        doc_wf(d),
        d.max_id < u32::MAX,
        node_dict(d, id) is Some,
        walk_ends(d, id, Inherited::Nothing),
        type_is(spec_field_type(d, id), "Btn"@),
    ensures
        ap_entry(fill_step(d, data, id2, l), id) == ap_entry(d, id),
{
    if let Some(v2) = step_value(d, data, id2) {
        lemma_ap_keys_differ();
        let d1 = spec_set_field_value(d, id2, v2);
        lemma_set_field_value_keeps(d, id2, v2);
        let n = Obj::Name(encode_utf8(v2));
        if type_is(spec_field_type(d, id2), "Btn"@) {
            let dv = spec_set_in_object(d, id2, "V".spec_bytes(), n);
            lemma_set_other_keeps_entry(d, id2, "V".spec_bytes(), n, id, "AP".spec_bytes());
            lemma_set_other_keeps_entry(dv, id2, "AS".spec_bytes(), n, id, "AP".spec_bytes());
        } else {
            lemma_set_other_keeps_entry(
                d,
                id2,
                "V".spec_bytes(),
                crate::text::spec_text_string(v2),
                id,
                "AP".spec_bytes(),
            );
        }
        assert(ap_entry(d1, id) == ap_entry(d, id));
        if !type_is(spec_field_type(d1, id2), "Btn"@) && spec_field_rect(d1, id2) is Some
            && crate::fields::spec_da_string(d1, id2) is Some {
            lemma_field_info_agree(d, d1, id);
            let multiline = crate::appearance::is_multiline(crate::fields::spec_field_flags(d1, id2), v2);
            let content = encode_utf8(crate::appearance::spec_content(v2, multiline, l));
            let so = spec_appearance_stream(l, content);
            let da = spec_add_object(d1, so);
            let ap = Obj::Dict(dict_set(Seq::empty(), "N".spec_bytes(), Obj::Reference(((d1.max_id + 1) as u32, 0u16))));
            let d2 = spec_set_in_object(da, id2, "AP".spec_bytes(), ap);
            lemma_node_after_add(d1, so, id);
            lemma_node_after_add(d1, so, id2);
            lemma_node_after_set(da, id2, "AP".spec_bytes(), ap, id);
            if spec_target(d1, id) == spec_target(d1, id2) {
                lemma_target(d1, id);
                lemma_same_target_node(d1, id, id2);
                lemma_same_node_info(d1, id, id2);
                assert(false);
            }
            assert(ap_entry(d2, id) == ap_entry(d1, id));
            lemma_set_other_keeps_entry(d2, id2, "DA".spec_bytes(), helv_da_object(l.font_size@), id, "AP".spec_bytes());
            assert(spec_install(d1, id2, l, content) == spec_set_in_object(
                d2,
                id2,
                "DA".spec_bytes(),
                helv_da_object(l.font_size@),
            ));
        }
    }
}

proof fn lemma_fill_fold_keeps_button_ap(
    d0: DocView,
    d: DocView,
    data: Seq<(Seq<char>, Seq<char>)>,
    ids: Seq<ObjectId>,
    ls: Seq<Layout>,
    id: ObjectId,
)
    requires
        doc_wf(d),
        d.max_id + ids.len() <= u32::MAX,
        same_structure(d0, d),
        walk_ends(d0, id, Inherited::Nothing),
        node_dict(d0, id) is Some,
        type_is(spec_field_type(d0, id), "Btn"@),
    ensures
        ap_entry(fill_fold(d, data, ids, ls), id) == ap_entry(d, id),
    decreases ids.len(),
{
    if ids.len() > 0 {
        let prev = fill_fold(d, data, ids.drop_last(), ls.drop_last());
        lemma_fill_fold_keeps_button_ap(d0, d, data, ids.drop_last(), ls.drop_last(), id);
        lemma_fill_fold_keeps(d, data, ids.drop_last(), ls.drop_last());
        lemma_same_structure_trans(d0, d, prev);
        lemma_field_info_agree(d0, prev, id);
        lemma_node_dict_agree(d0, prev, id);
        lemma_fill_step_keeps_button_ap(prev, data, ids.last(), ls.last(), id);
    }
}

proof fn lemma_normalize_fold_keeps_ap_entry(d: DocView, ids: Seq<ObjectId>, sizes: Seq<String>, id: ObjectId)
    requires
        node_dict(d, id) is Some,
    ensures
        ap_entry(normalize_fold(d, ids, sizes), id) == ap_entry(d, id),
    decreases ids.len(),
{
    if ids.len() > 0 {
        lemma_normalize_fold_keeps_ap_entry(d, ids.drop_last(), sizes.drop_last(), id);
        lemma_ap_keys_differ();
        lemma_set_other_keeps_entry(
            normalize_fold(d, ids.drop_last(), sizes.drop_last()),
            ids.last(),
            "DA".spec_bytes(),
            helv_da_object(sizes.last()@),
            id,
            "AP".spec_bytes(),
        );
    }
}

/// Filling never writes the appearance of a button: its `/AP` entry, or the lack of
/// one, stays as it was (buttons keep their prepared on and off appearances).
pub proof fn law_fill_pdf_buttons_keep_appearance<L: Fn(LayoutRequest) -> Layout, S: Fn(Option<String>) -> String>(
    layout: L,
    size_text: S,
    d: DocView,
    data: Seq<(Seq<char>, Seq<char>)>,
    ls1: Seq<Layout>,
    ls2: Seq<Layout>,
    sizes: Seq<String>,
    f: DocView,
    id: ObjectId,
)
    requires
        doc_wf(d),
        walks_end(d),
        d.max_id + spec_all_ids(d).len() <= u32::MAX,
        spec_filled(layout, size_text, d, data, ls1, ls2, sizes, f),
        walk_ends(d, id, Inherited::Nothing),
        node_dict(d, id) is Some,
        type_is(spec_field_type(d, id), "Btn"@),
    ensures
        ap_entry(f, id) == ap_entry(d, id),
{
    lemma_filled_stages(layout, size_text, d, data, ls1, ls2, sizes, f);
    let fids = spec_field_ids(d);
    let a = fill_fold(d, data, fids, ls1);
    let aids = spec_annot_ids(a);
    let b = fill_fold(a, data, aids, ls2);
    let c = normalize_fold(b, spec_all_ids(b), sizes);
    lemma_same_structure_refl(d);
    lemma_fill_fold_keeps_button_ap(d, d, data, fids, ls1, id);
    lemma_fill_fold_keeps_button_ap(d, a, data, aids, ls2, id);
    lemma_node_dict_agree(d, b, id);
    lemma_normalize_fold_keeps_ap_entry(b, spec_all_ids(b), sizes, id);
    lemma_node_dict_agree(d, c, id);
    lemma_ap_keys_differ();
    if let Ok(cat) = spec_catalog(c) {
        if let Some(Obj::Reference(af)) = dict_get(cat, "AcroForm".spec_bytes()) {
            lemma_set_other_keeps_entry(c, af, "NeedAppearances".spec_bytes(), Obj::Boolean(true), id, "AP".spec_bytes());
        }
    }
}

// ---------------------------------------------------------------------------
// Fields without a value are left alone.
// ---------------------------------------------------------------------------

/// The `/V` entry of the dictionary that `id` reaches, where it reaches one.
pub open spec fn v_entry(d: DocView, id: ObjectId) -> Option<Option<Obj>> {
    match node_dict(d, id) {
        Some(e) => Some(dict_get(e, "V".spec_bytes())),
        None => None,
    }
}

/// A field with no value to fill and one with a value have different targets.
proof fn lemma_unvalued_other_target(d: DocView, data: Seq<(Seq<char>, Seq<char>)>, id: ObjectId, id2: ObjectId)
    requires
        node_dict(d, id) is Some,
        walk_ends(d, id, Inherited::Nothing),
        step_value(d, data, id) is None,
        step_value(d, data, id2) is Some,
    ensures
        spec_target(d, id) != spec_target(d, id2),
{
    if spec_target(d, id) == spec_target(d, id2) {
        lemma_target(d, id);
        lemma_same_target_node(d, id, id2);
        lemma_same_node_info(d, id, id2);
    }
}

/// Generating an appearance keeps every entry other than `/AP` and `/DA`.
proof fn lemma_appearance_keeps_entry(d: DocView, id2: ObjectId, v2: Seq<char>, l: Layout, id: ObjectId, key: Seq<u8>)
    requires
        doc_wf(d),
        d.max_id < u32::MAX,
        node_dict(d, id) is Some,
        key != "AP".spec_bytes(),
        key != "DA".spec_bytes(),
    ensures
        node_dict(spec_appearance(d, id2, v2, l), id) is Some,
        dict_get(node_dict(spec_appearance(d, id2, v2, l), id)->Some_0, key) == dict_get(node_dict(d, id)->Some_0, key),
{
    if spec_field_rect(d, id2) is Some && crate::fields::spec_da_string(d, id2) is Some {
        let multiline = crate::appearance::is_multiline(crate::fields::spec_field_flags(d, id2), v2);
        let content = encode_utf8(crate::appearance::spec_content(v2, multiline, l));
        let so = spec_appearance_stream(l, content);
        let da = spec_add_object(d, so);
        let ap = Obj::Dict(dict_set(Seq::empty(), "N".spec_bytes(), Obj::Reference(((d.max_id + 1) as u32, 0u16))));
        let d2 = spec_set_in_object(da, id2, "AP".spec_bytes(), ap);
        lemma_node_after_add(d, so, id);
        lemma_set_other_keeps_entry(da, id2, "AP".spec_bytes(), ap, id, key);
        lemma_set_other_keeps_entry(d2, id2, "DA".spec_bytes(), helv_da_object(l.font_size@), id, key);
        assert(spec_install(d, id2, l, content) == spec_set_in_object(
            d2,
            id2,
            "DA".spec_bytes(),
            helv_da_object(l.font_size@),
        ));
    }
}

/// Filling any widget keeps the `/V` entry of a field that has no value to fill.
proof fn lemma_fill_step_keeps_unvalued(d: DocView, data: Seq<(Seq<char>, Seq<char>)>, id2: ObjectId, l: Layout, id: ObjectId)
    requires
        doc_wf(d),
        d.max_id < u32::MAX,
        node_dict(d, id) is Some,
        walk_ends(d, id, Inherited::Nothing),
        step_value(d, data, id) is None,
    ensures
        v_entry(fill_step(d, data, id2, l), id) == v_entry(d, id),
{
    if let Some(v2) = step_value(d, data, id2) {
        let d1 = spec_set_field_value(d, id2, v2);
        lemma_set_field_value_keeps(d, id2, v2);
        lemma_unvalued_other_target(d, data, id, id2);
        crate::laws::lemma_set_field_value_elsewhere(d, id2, v2, id);
        assert(v_entry(d1, id) == v_entry(d, id));
        if !type_is(spec_field_type(d1, id2), "Btn"@) {
            lemma_ap_keys_differ();
            lemma_appearance_keeps_entry(d1, id2, v2, l, id, "V".spec_bytes());
        }
    }
}

proof fn lemma_fill_fold_keeps_unvalued(
    d0: DocView,
    d: DocView,
    data: Seq<(Seq<char>, Seq<char>)>,
    ids: Seq<ObjectId>,
    ls: Seq<Layout>,
    id: ObjectId,
)
    requires
        doc_wf(d),
        d.max_id + ids.len() <= u32::MAX,
        same_structure(d0, d),
        walk_ends(d0, id, Inherited::Nothing),
        node_dict(d0, id) is Some,
        step_value(d0, data, id) is None,
    ensures
        v_entry(fill_fold(d, data, ids, ls), id) == v_entry(d, id),
    decreases ids.len(),
{
    if ids.len() > 0 {
        let prev = fill_fold(d, data, ids.drop_last(), ls.drop_last());
        lemma_fill_fold_keeps_unvalued(d0, d, data, ids.drop_last(), ls.drop_last(), id);
        lemma_fill_fold_keeps(d, data, ids.drop_last(), ls.drop_last());
        lemma_same_structure_trans(d0, d, prev);
        lemma_field_info_agree(d0, prev, id);
        lemma_node_dict_agree(d0, prev, id);
        lemma_fill_step_keeps_unvalued(prev, data, ids.last(), ls.last(), id);
    }
}

proof fn lemma_normalize_fold_keeps_v(d: DocView, ids: Seq<ObjectId>, sizes: Seq<String>, id: ObjectId)
    requires
        node_dict(d, id) is Some,
    ensures
        v_entry(normalize_fold(d, ids, sizes), id) == v_entry(d, id),
    decreases ids.len(),
{
    if ids.len() > 0 {
        lemma_normalize_fold_keeps_v(d, ids.drop_last(), sizes.drop_last(), id);
        lemma_ap_keys_differ();
        lemma_set_other_keeps_entry(
            normalize_fold(d, ids.drop_last(), sizes.drop_last()),
            ids.last(),
            "DA".spec_bytes(),
            helv_da_object(sizes.last()@),
            id,
            "V".spec_bytes(),
        );
    }
}

/// Filling leaves the value `/V` of a field or widget as it was where its name has no
/// value, or only an empty one.
pub proof fn law_fill_pdf_skips_unvalued<L: Fn(LayoutRequest) -> Layout, S: Fn(Option<String>) -> String>(
    layout: L,
    size_text: S,
    d: DocView,
    data: Seq<(Seq<char>, Seq<char>)>,
    ls1: Seq<Layout>,
    ls2: Seq<Layout>,
    sizes: Seq<String>,
    f: DocView,
    id: ObjectId,
)
    requires
        doc_wf(d),
        walks_end(d),
        d.max_id + spec_all_ids(d).len() <= u32::MAX,
        spec_filled(layout, size_text, d, data, ls1, ls2, sizes, f),
        walk_ends(d, id, Inherited::Nothing),
        node_dict(d, id) is Some,
        step_value(d, data, id) is None,
    ensures
        v_entry(f, id) == v_entry(d, id),
{
    lemma_filled_stages(layout, size_text, d, data, ls1, ls2, sizes, f);
    let fids = spec_field_ids(d);
    let a = fill_fold(d, data, fids, ls1);
    let aids = spec_annot_ids(a);
    let b = fill_fold(a, data, aids, ls2);
    let c = normalize_fold(b, spec_all_ids(b), sizes);
    lemma_same_structure_refl(d);
    lemma_fill_fold_keeps_unvalued(d, d, data, fids, ls1, id);
    lemma_fill_fold_keeps_unvalued(d, a, data, aids, ls2, id);
    lemma_node_dict_agree(d, b, id);
    lemma_normalize_fold_keeps_v(b, spec_all_ids(b), sizes, id);
    lemma_node_dict_agree(d, c, id);
    lemma_ap_keys_differ();
    if let Ok(cat) = spec_catalog(c) {
        if let Some(Obj::Reference(af)) = dict_get(cat, "AcroForm".spec_bytes()) {
            lemma_keys_differ();
            lemma_set_other_keeps_entry(c, af, "NeedAppearances".spec_bytes(), Obj::Boolean(true), id, "V".spec_bytes());
        }
    }
}

} // verus!
