use vstd::prelude::*;
use vstd::string::StringSliceAdditionalSpecFns;
use vstd::utf8::encode_utf8;
use crate::object::{Entries, Obj, ObjectId};
use crate::dict::{dict_get, dict_set, lemma_dict_get_set};
use crate::document::{DocView, spec_add_object, spec_catalog, spec_set_in_object, spec_target, lemma_target};
use crate::fields::{Inherited, node_dict, spec_field_name, spec_field_type, walk_ends};
use crate::collect::{spec_annot_ids, spec_field_ids};
use crate::names::{is_field_name, spec_all_ids, walks_end};
use crate::text::{spec_string_value, spec_text_string, lemma_text_string_roundtrip};
use crate::appearance::{Layout, LayoutRequest, spec_appearance, spec_appearance_stream, spec_install};
use crate::fill::{
    fill_fold, fill_step, helv_da_object, names_fold, normalize_fold, normalize_step, spec_filled, spec_lookup,
    spec_set_field_value, spec_set_need_appearances, step_name, step_value, type_is, lemma_appearance_keeps,
    lemma_set_field_value_keeps,
};
use crate::strip::{strip_applies, strip_fold, strip_step};
use crate::layout::{words, wrap_paragraph, wrap_state};
use crate::text::spec_is_whitespace;
use crate::json::{JsonView, json_text, spec_data_from_json};
use crate::document::spec_remove_in_object;
use crate::dict::{dict_remove, keys_unique, lemma_dict_get_remove};
use crate::structure::{lemma_catalog_agree, lemma_kept_keys, lemma_node_after_remove, lemma_remove_keeps_structure};
use crate::structure::{
    dicts_agree, doc_wf, keys_wf, same_structure, lemma_annot_ids_agree, lemma_field_info_agree, lemma_node_after_add,
    lemma_node_after_set, lemma_node_dict_agree, lemma_same_node_info, lemma_same_structure_refl,
    lemma_same_structure_trans, lemma_same_target_node, lemma_set_keeps_structure,
};

verus! {

broadcast use vstd::seq::group_seq_axioms;

// ---------------------------------------------------------------------------
// Keys.
// ---------------------------------------------------------------------------

/// The keys written while filling differ from `/V`.
pub proof fn lemma_keys_differ()
    ensures
        "V".spec_bytes() != "AS".spec_bytes(),
        "V".spec_bytes() != "AP".spec_bytes(),
        "V".spec_bytes() != "DA".spec_bytes(),
        "V".spec_bytes() != "NeedAppearances".spec_bytes(),
        "V".spec_bytes() != "DV".spec_bytes(),
        "DV".spec_bytes() != "AS".spec_bytes(),
        "NeedAppearances".spec_bytes() != "AP".spec_bytes(),
        "NeedAppearances".spec_bytes() != "DA".spec_bytes(),
{
    reveal_strlit("V");
    reveal_strlit("AS");
    reveal_strlit("AP");
    reveal_strlit("DA");
    reveal_strlit("DV");
    reveal_strlit("NeedAppearances");
    vstd::string::is_ascii_spec_bytes("V");
    vstd::string::is_ascii_spec_bytes("AS");
    vstd::string::is_ascii_spec_bytes("AP");
    vstd::string::is_ascii_spec_bytes("DA");
    vstd::string::is_ascii_spec_bytes("DV");
    vstd::string::is_ascii_spec_bytes("NeedAppearances");
    assert("V".spec_bytes().len() != "AS".spec_bytes().len());
    assert("V".spec_bytes().len() != "NeedAppearances".spec_bytes().len());
    assert("DV".spec_bytes()[0] != "AS".spec_bytes()[0]);
    assert("NeedAppearances".spec_bytes().len() != "AP".spec_bytes().len());
}

// ---------------------------------------------------------------------------
// Reading back a stored value.
// ---------------------------------------------------------------------------

/// The text held as `/V` by the dictionary that `id` reaches.
pub open spec fn field_value(d: DocView, id: ObjectId) -> Option<Seq<char>> {
    match node_dict(d, id) {
        Some(e) => match dict_get(e, "V".spec_bytes()) {
            Some(o) => spec_string_value(o),
            None => None,
        },
        None => None,
    }
}

/// `id` reaches a dictionary whose `/V` reads as `v`.
pub open spec fn holds_value(d: DocView, id: ObjectId, v: Seq<char>) -> bool {
    node_dict(d, id) is Some && field_value(d, id) == Some(v)
}

/// A value stored in a field reads back as the same text, whatever the field's type;
/// a button also gets the value as its appearance state `/AS`.
pub proof fn law_set_field_value_reads_back(d: DocView, id: ObjectId, v: Seq<char>)
    requires
        node_dict(d, id) is Some,
    ensures
        holds_value(spec_set_field_value(d, id, v), id, v),
        type_is(spec_field_type(d, id), "Btn"@) ==> dict_get(
            node_dict(spec_set_field_value(d, id, v), id)->Some_0,
            "AS".spec_bytes(),
        ) == Some(Obj::Name(encode_utf8(v))),
{
    let e = node_dict(d, id)->Some_0;
    lemma_keys_differ();
    if type_is(spec_field_type(d, id), "Btn"@) {
        let n = Obj::Name(encode_utf8(v));
        let d1 = spec_set_in_object(d, id, "V".spec_bytes(), n);
        lemma_node_after_set(d, id, "V".spec_bytes(), n, id);
        let e1 = dict_set(e, "V".spec_bytes(), n);
        lemma_node_after_set(d1, id, "AS".spec_bytes(), n, id);
        lemma_dict_get_set(e1, "AS".spec_bytes(), n, "V".spec_bytes());
        lemma_dict_get_set(e1, "AS".spec_bytes(), n, "AS".spec_bytes());
        lemma_dict_get_set(e, "V".spec_bytes(), n, "V".spec_bytes());
        vstd::utf8::encode_utf8_valid_utf8(v);
        vstd::utf8::encode_utf8_decode_utf8(v);
    } else {
        lemma_node_after_set(d, id, "V".spec_bytes(), spec_text_string(v), id);
        lemma_dict_get_set(e, "V".spec_bytes(), spec_text_string(v), "V".spec_bytes());
        lemma_text_string_roundtrip(v);
    }
}

/// Storing under a key other than `/V` keeps what every id holds as `/V`.
proof fn lemma_set_other_keeps_value(d: DocView, id2: ObjectId, k: Seq<u8>, x: Obj, id: ObjectId, v: Seq<char>)
    requires
        k != "V".spec_bytes(),
        holds_value(d, id, v),
    ensures
        holds_value(spec_set_in_object(d, id2, k, x), id, v),
{
    lemma_node_after_set(d, id2, k, x, id);
    if node_dict(d, id2) is Some && spec_target(d, id) == spec_target(d, id2) {
        lemma_target(d, id2);
        lemma_same_target_node(d, id2, id);
        lemma_dict_get_set(node_dict(d, id)->Some_0, k, x, "V".spec_bytes());
    }
}

/// Generating an appearance keeps what every id holds as `/V`.
proof fn lemma_appearance_keeps_value(d: DocView, id2: ObjectId, v2: Seq<char>, l: Layout, id: ObjectId, v: Seq<char>)
    requires
        doc_wf(d),
        d.max_id < u32::MAX,
        holds_value(d, id, v),
    ensures
        holds_value(spec_appearance(d, id2, v2, l), id, v),
{
    if crate::appearance::spec_field_rect(d, id2) is Some && crate::fields::spec_da_string(d, id2) is Some {
        lemma_keys_differ();
        let multiline = crate::appearance::is_multiline(crate::fields::spec_field_flags(d, id2), v2);
        let content = encode_utf8(crate::appearance::spec_content(v2, multiline, l));
        let so = spec_appearance_stream(l, content);
        let d1 = spec_add_object(d, so);
        let ap = Obj::Dict(dict_set(Seq::empty(), "N".spec_bytes(), Obj::Reference(((d.max_id + 1) as u32, 0u16))));
        let d2 = spec_set_in_object(d1, id2, "AP".spec_bytes(), ap);
        lemma_node_after_add(d, so, id);
        lemma_set_other_keeps_value(d1, id2, "AP".spec_bytes(), ap, id, v);
        lemma_set_other_keeps_value(d2, id2, "DA".spec_bytes(), helv_da_object(l.font_size@), id, v);
        assert(spec_install(d, id2, l, content) == spec_set_in_object(
            d2,
            id2,
            "DA".spec_bytes(),
            helv_da_object(l.font_size@),
        ));
    }
}

/// Storing a value in `id2` changes neither targets nor, where `id2` has another
/// target than `id`, what `id` finds.
pub proof fn lemma_set_field_value_elsewhere(d: DocView, id2: ObjectId, v2: Seq<char>, id: ObjectId)
    ensures
        spec_target(spec_set_field_value(d, id2, v2), id) == spec_target(d, id),
        spec_target(d, id) != spec_target(d, id2) ==> node_dict(spec_set_field_value(d, id2, v2), id)
            == node_dict(d, id),
{
    if type_is(spec_field_type(d, id2), "Btn"@) {
        let n = Obj::Name(encode_utf8(v2));
        let d1 = spec_set_in_object(d, id2, "V".spec_bytes(), n);
        lemma_node_after_set(d, id2, "V".spec_bytes(), n, id);
        lemma_node_after_set(d, id2, "V".spec_bytes(), n, id2);
        lemma_node_after_set(d1, id2, "AS".spec_bytes(), n, id);
    } else {
        lemma_node_after_set(d, id2, "V".spec_bytes(), spec_text_string(v2), id);
    }
}

/// Filling any widget keeps the value that `id` holds, where `id` holds the value
/// that its own name is paired with.
proof fn lemma_fill_step_keeps_value(
    d: DocView,
    data: Seq<(Seq<char>, Seq<char>)>,
    id2: ObjectId,
    l: Layout,
    id: ObjectId,
    v: Seq<char>,
)
    requires
        doc_wf(d),
        d.max_id < u32::MAX,
        holds_value(d, id, v),
        walk_ends(d, id, Inherited::Nothing),
        step_value(d, data, id) == Some(v),
    ensures
        holds_value(fill_step(d, data, id2, l), id, v),
{
    if let Some(v2) = step_value(d, data, id2) {
        let d1 = spec_set_field_value(d, id2, v2);
        lemma_set_field_value_keeps(d, id2, v2);
        lemma_set_field_value_elsewhere(d, id2, v2, id);
        if spec_target(d, id) == spec_target(d, id2) {
            lemma_target(d, id);
            lemma_same_target_node(d, id, id2);
            lemma_same_node_info(d, id, id2);
            law_set_field_value_reads_back(d, id2, v);
            lemma_set_field_value_elsewhere(d, id2, v, id2);
            lemma_target(d1, id);
            lemma_same_target_node(d1, id, id2);
        }
        assert(holds_value(d1, id, v));
        if !type_is(spec_field_type(d1, id2), "Btn"@) {
            lemma_appearance_keeps_value(d1, id2, v2, l, id, v);
        }
    }
}

/// Filling `id` itself makes it hold its value.
proof fn lemma_fill_step_sets_value(
    d: DocView,
    data: Seq<(Seq<char>, Seq<char>)>,
    id: ObjectId,
    l: Layout,
    v: Seq<char>,
)
    requires
        doc_wf(d),
        d.max_id < u32::MAX,
        node_dict(d, id) is Some,
        step_value(d, data, id) == Some(v),
    ensures
        holds_value(fill_step(d, data, id, l), id, v),
{
    let d1 = spec_set_field_value(d, id, v);
    law_set_field_value_reads_back(d, id, v);
    lemma_set_field_value_keeps(d, id, v);
    if !type_is(spec_field_type(d1, id), "Btn"@) {
        lemma_appearance_keeps_value(d1, id, v, l, id, v);
    }
}

/// Filling keeps the structure, and adds one object per widget at most.
pub proof fn lemma_fill_fold_keeps(d: DocView, data: Seq<(Seq<char>, Seq<char>)>, ids: Seq<ObjectId>, ls: Seq<Layout>)
    requires
        doc_wf(d),
        d.max_id + ids.len() <= u32::MAX,
    ensures
        same_structure(d, fill_fold(d, data, ids, ls)),
        doc_wf(fill_fold(d, data, ids, ls)),
        fill_fold(d, data, ids, ls).max_id <= d.max_id + ids.len(),
    decreases ids.len(),
{
    if ids.len() == 0 {
        lemma_same_structure_refl(d);
    } else {
        let prev = fill_fold(d, data, ids.drop_last(), ls.drop_last());
        lemma_fill_fold_keeps(d, data, ids.drop_last(), ls.drop_last());
        let id = ids.last();
        if let Some(v) = step_value(prev, data, id) {
            let d1 = spec_set_field_value(prev, id, v);
            lemma_set_field_value_keeps(prev, id, v);
            lemma_same_structure_trans(d, prev, d1);
            if !type_is(spec_field_type(d1, id), "Btn"@) {
                lemma_appearance_keeps(d1, id, v, ls.last());
                lemma_same_structure_trans(d, d1, spec_appearance(d1, id, v, ls.last()));
            }
        }
    }
}

/// After filling the widgets `ids`, `id` holds its value: it held it before, or it is
/// among `ids`.
proof fn lemma_fill_fold_value(
    d0: DocView,
    d: DocView,
    data: Seq<(Seq<char>, Seq<char>)>,
    ids: Seq<ObjectId>,
    ls: Seq<Layout>,
    id: ObjectId,
    v: Seq<char>,
)
    requires
        doc_wf(d),
        d.max_id + ids.len() <= u32::MAX,
        same_structure(d0, d),
        walk_ends(d0, id, Inherited::Nothing),
        node_dict(d0, id) is Some,
        step_value(d0, data, id) == Some(v),
        holds_value(d, id, v) || ids.contains(id),
    ensures
        holds_value(fill_fold(d, data, ids, ls), id, v),
    decreases ids.len(),
{
    if ids.len() > 0 {
        let prev = fill_fold(d, data, ids.drop_last(), ls.drop_last());
        lemma_fill_fold_keeps(d, data, ids.drop_last(), ls.drop_last());
        lemma_same_structure_trans(d0, d, prev);
        lemma_field_info_agree(d0, prev, id);
        lemma_node_dict_agree(d0, prev, id);
        if holds_value(d, id, v) || ids.drop_last().contains(id) {
            lemma_fill_fold_value(d0, d, data, ids.drop_last(), ls.drop_last(), id, v);
            lemma_fill_step_keeps_value(prev, data, ids.last(), ls.last(), id, v);
        } else {
            assert(ids.last() == id) by {
                let k = choose|k: int| 0 <= k < ids.len() && ids[k] == id;
                if k < ids.len() - 1 {
                    assert(ids.drop_last()[k] == id);
                }
            }
            lemma_fill_step_sets_value(prev, data, id, ls.last(), v);
        }
    }
}

/// Rewriting default appearances keeps what every id holds as `/V`.
proof fn lemma_normalize_fold_value(d: DocView, ids: Seq<ObjectId>, sizes: Seq<String>, id: ObjectId, v: Seq<char>)
    requires
        holds_value(d, id, v),
    ensures
        holds_value(normalize_fold(d, ids, sizes), id, v),
    decreases ids.len(),
{
    if ids.len() > 0 {
        let prev = normalize_fold(d, ids.drop_last(), sizes.drop_last());
        lemma_normalize_fold_value(d, ids.drop_last(), sizes.drop_last(), id, v);
        lemma_keys_differ();
        lemma_set_other_keeps_value(prev, ids.last(), "DA".spec_bytes(), helv_da_object(sizes.last()@), id, v);
    }
}

/// Rewriting default appearances keeps the structure.
pub proof fn lemma_normalize_fold_keeps(d: DocView, ids: Seq<ObjectId>, sizes: Seq<String>)
    requires
        doc_wf(d),
    ensures
        same_structure(d, normalize_fold(d, ids, sizes)),
        doc_wf(normalize_fold(d, ids, sizes)),
    decreases ids.len(),
{
    if ids.len() == 0 {
        lemma_same_structure_refl(d);
    } else {
        let prev = normalize_fold(d, ids.drop_last(), sizes.drop_last());
        lemma_normalize_fold_keeps(d, ids.drop_last(), sizes.drop_last());
        lemma_set_keeps_structure(prev, ids.last(), "DA".spec_bytes(), helv_da_object(sizes.last()@));
        lemma_same_structure_trans(d, prev, normalize_step(prev, ids.last(), sizes.last()@));
    }
}

/// The documents met while filling, and what they keep.
pub proof fn lemma_filled_stages<L: Fn(LayoutRequest) -> Layout, S: Fn(Option<String>) -> String>(
    layout: L,
    size_text: S,
    d: DocView,
    data: Seq<(Seq<char>, Seq<char>)>,
    ls1: Seq<Layout>,
    ls2: Seq<Layout>,
    sizes: Seq<String>,
    f: DocView,
)
    requires
        doc_wf(d),
        walks_end(d),
        d.max_id + spec_all_ids(d).len() <= u32::MAX,
        spec_filled(layout, size_text, d, data, ls1, ls2, sizes, f),
    ensures
        ({
            let a = fill_fold(d, data, spec_field_ids(d), ls1);
            let b = fill_fold(a, data, spec_annot_ids(a), ls2);
            let c = normalize_fold(b, spec_all_ids(b), sizes);
            &&& same_structure(d, a) && doc_wf(a) && a.max_id <= d.max_id + spec_field_ids(d).len()
            &&& spec_annot_ids(a) == spec_annot_ids(d)
            &&& same_structure(d, b) && doc_wf(b)
            &&& same_structure(d, c) && doc_wf(c)
            &&& f == spec_set_need_appearances(c)
        }),
{
    let a = fill_fold(d, data, spec_field_ids(d), ls1);
    lemma_fill_fold_keeps(d, data, spec_field_ids(d), ls1);
    lemma_annot_ids_agree(d, a);
    let b = fill_fold(a, data, spec_annot_ids(a), ls2);
    lemma_fill_fold_keeps(a, data, spec_annot_ids(a), ls2);
    lemma_same_structure_trans(d, a, b);
    let c = normalize_fold(b, spec_all_ids(b), sizes);
    lemma_normalize_fold_keeps(b, spec_all_ids(b), sizes);
    lemma_same_structure_trans(d, b, c);
}

/// After filling, every field or widget that reaches a dictionary, and whose name is
/// paired with a non-empty value, holds that value: its `/V` reads back as the value.
pub proof fn law_fill_pdf_values<L: Fn(LayoutRequest) -> Layout, S: Fn(Option<String>) -> String>(
    layout: L,
    size_text: S,
    d: DocView,
    data: Seq<(Seq<char>, Seq<char>)>,
    ls1: Seq<Layout>,
    ls2: Seq<Layout>,
    sizes: Seq<String>,
    f: DocView,
    id: ObjectId,
)
    requires
        doc_wf(d),
        walks_end(d),
        d.max_id + spec_all_ids(d).len() <= u32::MAX,
        spec_filled(layout, size_text, d, data, ls1, ls2, sizes, f),
        spec_all_ids(d).contains(id),
        node_dict(d, id) is Some,
        step_value(d, data, id) is Some,
    ensures
        field_value(f, id) == step_value(d, data, id),
{
    let v = step_value(d, data, id)->Some_0;
    lemma_filled_stages(layout, size_text, d, data, ls1, ls2, sizes, f);
    let fids = spec_field_ids(d);
    let a = fill_fold(d, data, fids, ls1);
    let aids = spec_annot_ids(a);
    let b = fill_fold(a, data, aids, ls2);
    let c = normalize_fold(b, spec_all_ids(b), sizes);
    let k = choose|k: int| 0 <= k < spec_all_ids(d).len() && spec_all_ids(d)[k] == id;
    assert(walk_ends(d, spec_all_ids(d)[k], Inherited::Nothing));
    lemma_same_structure_refl(d);
    if k < fids.len() {
        assert(fids[k] == id);
        lemma_fill_fold_value(d, d, data, fids, ls1, id, v);
        lemma_fill_fold_value(d, a, data, aids, ls2, id, v);
    } else {
        assert(aids[k - fids.len()] == id);
        lemma_fill_fold_value(d, a, data, aids, ls2, id, v);
    }
    lemma_normalize_fold_value(b, spec_all_ids(b), sizes, id, v);
    lemma_keys_differ();
    if let Ok(cat) = spec_catalog(c) {
        if let Some(Obj::Reference(af)) = dict_get(cat, "AcroForm".spec_bytes()) {
            lemma_set_other_keeps_value(c, af, "NeedAppearances".spec_bytes(), Obj::Boolean(true), id, v);
        }
    }
}

// ---------------------------------------------------------------------------
// The names reported as filled.
// ---------------------------------------------------------------------------

/// No text occurs twice.
pub open spec fn no_duplicates(s: Seq<Seq<char>>) -> bool {
    forall|i: int, j: int| 0 <= i < j < s.len() ==> s[i] != s[j]
}

proof fn lemma_names_fold_contents(
    s: Seq<Seq<char>>,
    d: DocView,
    data: Seq<(Seq<char>, Seq<char>)>,
    ids: Seq<ObjectId>,
)
    requires
        no_duplicates(s),
    ensures
        no_duplicates(names_fold(s, d, data, ids)),
        forall|t: Seq<char>|
            #[trigger] names_fold(s, d, data, ids).contains(t) <==> (s.contains(t) || exists|k: int|
                0 <= k < ids.len() && step_name(d, data, #[trigger] ids[k]) == Some(t)),
    decreases ids.len(),
{
    if ids.len() > 0 {
        let pre = ids.drop_last();
        lemma_names_fold_contents(s, d, data, pre);
        let r = names_fold(s, d, data, pre);
        let n = step_name(d, data, ids.last());
        let res = names_fold(s, d, data, ids);
        assert(res == crate::fill::add_name(r, n));
        assert forall|t: Seq<char>|
            #[trigger] res.contains(t) <==> (s.contains(t) || exists|k: int|
                0 <= k < ids.len() && step_name(d, data, #[trigger] ids[k]) == Some(t)) by {
            let in_pre = exists|k: int| 0 <= k < pre.len() && step_name(d, data, #[trigger] pre[k]) == Some(t);
            let in_ids = exists|k: int| 0 <= k < ids.len() && step_name(d, data, #[trigger] ids[k]) == Some(t);
            assert(r.contains(t) <==> (s.contains(t) || in_pre));
            if in_pre {
                let k = choose|k: int| 0 <= k < pre.len() && step_name(d, data, #[trigger] pre[k]) == Some(t);
                assert(ids[k] == pre[k]);
            }
            if in_ids {
                let k = choose|k: int| 0 <= k < ids.len() && step_name(d, data, #[trigger] ids[k]) == Some(t);
                if k < pre.len() {
                    assert(pre[k] == ids[k]);
                } else {
                    assert(n == Some(t));
                }
            }
            if n == Some(t) {
                assert(step_name(d, data, ids[ids.len() - 1]) == Some(t));
            }
            assert(in_ids <==> (in_pre || n == Some(t)));
            if n == Some(t) && !r.contains(t) {
                assert(res == r.push(t));
                assert(res[r.len() as int] == t);
            }
            if r.contains(t) {
                let j = choose|j: int| 0 <= j < r.len() && r[j] == t;
                if n is Some && !r.contains(n->Some_0) {
                    assert(res[j] == t);
                }
            }
            if res.contains(t) && !r.contains(t) {
                let j = choose|j: int| 0 <= j < res.len() && res[j] == t;
                assert(n is Some && !r.contains(n->Some_0));
                if j < r.len() {
                    assert(res[j] == r[j]);
                }
            }
            assert(res.contains(t) <==> (r.contains(t) || n == Some(t)));
        }
    }
}

/// `t` is paired with a non-empty value.
pub open spec fn has_value(data: Seq<(Seq<char>, Seq<char>)>, t: Seq<char>) -> bool {
    match spec_lookup(data, t) {
        Some(v) => v.len() > 0,
        None => false,
    }
}

/// Filling reports each name once, and exactly the names of fields or widgets that
/// are paired with a non-empty value: the listed names that have a value.
pub proof fn law_filled_names(d: DocView, data: Seq<(Seq<char>, Seq<char>)>)
    ensures
        forall|t: Seq<char>|
            names_fold(Seq::empty(), d, data, spec_all_ids(d)).contains(t) <==> (is_field_name(d, t) && has_value(
                data,
                t,
            )),
        no_duplicates(names_fold(Seq::empty(), d, data, spec_all_ids(d))),
        forall|t: Seq<char>|
            names_fold(Seq::empty(), d, data, spec_all_ids(d)).contains(t) <==> exists|k: int|
                0 <= k < spec_all_ids(d).len() && spec_field_name(d, #[trigger] spec_all_ids(d)[k]) == Some(t) && has_value(data, t),
{
    let ids = spec_all_ids(d);
    lemma_names_fold_contents(Seq::empty(), d, data, ids);
    assert forall|t: Seq<char>|
        names_fold(Seq::empty(), d, data, ids).contains(t) <==> exists|k: int|
            0 <= k < ids.len() && spec_field_name(d, #[trigger] ids[k]) == Some(t) && has_value(data, t) by {
        assert(names_fold(Seq::<Seq<char>>::empty(), d, data, ids).contains(t) <==> exists|k: int|
            0 <= k < ids.len() && step_name(d, data, #[trigger] ids[k]) == Some(t));
        if exists|k: int| 0 <= k < ids.len() && step_name(d, data, #[trigger] ids[k]) == Some(t) {
            let k = choose|k: int| 0 <= k < ids.len() && step_name(d, data, #[trigger] ids[k]) == Some(t);
            assert(spec_field_name(d, ids[k]) == Some(t));
        }
        if exists|k: int|
            0 <= k < ids.len() && spec_field_name(d, #[trigger] ids[k]) == Some(t) && has_value(data, t) {
            let k = choose|k: int|
                0 <= k < ids.len() && spec_field_name(d, #[trigger] ids[k]) == Some(t) && has_value(data, t);
            assert(step_name(d, data, ids[k]) == Some(t));
        }
    }
}

/// Filling and stripping change no field name: a document of the same structure lists
/// the same names.
pub proof fn law_same_structure_lists_same_names(d1: DocView, d2: DocView)
    requires
        walks_end(d1),
        same_structure(d1, d2),
    ensures
        walks_end(d2),
        forall|t: Seq<char>| is_field_name(d1, t) == is_field_name(d2, t),
{
    crate::fill::lemma_walks_end_agree(d1, d2);
    let ids = spec_all_ids(d1);
    assert forall|i: int| 0 <= i < ids.len() implies spec_field_name(d1, #[trigger] ids[i]) == spec_field_name(
        d2,
        ids[i],
    ) by {
        assert(walk_ends(d1, spec_all_ids(d1)[i], Inherited::Nothing));
        lemma_field_info_agree(d1, d2, ids[i]);
    }
    assert forall|t: Seq<char>| is_field_name(d1, t) == is_field_name(d2, t) by {
        if is_field_name(d1, t) {
            let i = choose|i: int| 0 <= i < ids.len() && spec_field_name(d1, #[trigger] ids[i]) == Some(t);
            assert(spec_field_name(d2, spec_all_ids(d2)[i]) == Some(t));
        }
        if is_field_name(d2, t) {
            let i = choose|i: int|
                0 <= i < spec_all_ids(d2).len() && spec_field_name(d2, #[trigger] spec_all_ids(d2)[i]) == Some(t);
            assert(spec_field_name(d1, ids[i]) == Some(t));
        }
    }
}

// ---------------------------------------------------------------------------
// The flag that asks viewers to rebuild appearances.
// ---------------------------------------------------------------------------

/// After filling, the interactive form dictionary that the catalog refers to has
/// `/NeedAppearances` set to true.
pub proof fn law_fill_pdf_need_appearances<L: Fn(LayoutRequest) -> Layout, S: Fn(Option<String>) -> String>(
    layout: L,
    size_text: S,
    d: DocView,
    data: Seq<(Seq<char>, Seq<char>)>,
    ls1: Seq<Layout>,
    ls2: Seq<Layout>,
    sizes: Seq<String>,
    f: DocView,
    af: ObjectId,
)
    requires
        doc_wf(d),
        walks_end(d),
        d.max_id + spec_all_ids(d).len() <= u32::MAX,
        spec_filled(layout, size_text, d, data, ls1, ls2, sizes, f),
        spec_catalog(d) matches Ok(c) && dict_get(c, "AcroForm".spec_bytes()) == Some(Obj::Reference(af)),
        node_dict(d, af) is Some,
    ensures
        node_dict(f, af) matches Some(e) && dict_get(e, "NeedAppearances".spec_bytes()) == Some(Obj::Boolean(true)),
{
    lemma_filled_stages(layout, size_text, d, data, ls1, ls2, sizes, f);
    let a = fill_fold(d, data, spec_field_ids(d), ls1);
    let b = fill_fold(a, data, spec_annot_ids(a), ls2);
    let c = normalize_fold(b, spec_all_ids(b), sizes);
    lemma_kept_keys();
    lemma_catalog_agree(d, c);
    lemma_node_dict_agree(d, c, af);
    let e = node_dict(c, af)->Some_0;
    lemma_node_after_set(c, af, "NeedAppearances".spec_bytes(), Obj::Boolean(true), af);
    lemma_dict_get_set(e, "NeedAppearances".spec_bytes(), Obj::Boolean(true), "NeedAppearances".spec_bytes());
}

// ---------------------------------------------------------------------------
// Stripping unfilled dropdowns.
// ---------------------------------------------------------------------------

/// `id` reaches a dictionary with neither `/DV` nor `/V`.
pub open spec fn no_defaults(d: DocView, id: ObjectId) -> bool {
    node_dict(d, id) matches Some(e) && dict_get(e, "DV".spec_bytes()) is None && dict_get(e, "V".spec_bytes())
        is None
}

/// Stripping keeps the structure.
pub proof fn lemma_strip_fold_keeps(d: DocView, filled: Seq<Seq<char>>, ids: Seq<ObjectId>)
    requires
        keys_wf(d),
    ensures
        same_structure(d, strip_fold(d, filled, ids)),
        keys_wf(strip_fold(d, filled, ids)),
    decreases ids.len(),
{
    if ids.len() == 0 {
        lemma_same_structure_refl(d);
    } else {
        let prev = strip_fold(d, filled, ids.drop_last());
        lemma_strip_fold_keeps(d, filled, ids.drop_last());
        let id = ids.last();
        if strip_applies(prev, filled, id) {
            let mid = spec_remove_in_object(prev, id, "DV".spec_bytes());
            lemma_remove_keeps_structure(prev, id, "DV".spec_bytes());
            lemma_remove_keeps_structure(mid, id, "V".spec_bytes());
            lemma_same_structure_trans(d, prev, mid);
            lemma_same_structure_trans(d, mid, strip_step(prev, filled, id));
        }
    }
}

/// In a well-formed document, the dictionary an id reaches has each key once.
proof fn lemma_node_unique(d: DocView, id: ObjectId)
    requires
        keys_wf(d),
        node_dict(d, id) is Some,
    ensures
        keys_unique(node_dict(d, id)->Some_0),
{
    lemma_target(d, id);
}

/// Removing `k` from the dictionary of `id2` keeps `id` without defaults.
proof fn lemma_remove_keeps_no_defaults(d: DocView, id2: ObjectId, k: Seq<u8>, id: ObjectId)
    requires
        keys_wf(d),
        no_defaults(d, id),
    ensures
        no_defaults(spec_remove_in_object(d, id2, k), id),
{
    lemma_node_after_remove(d, id2, k, id);
    if node_dict(d, id2) is Some && spec_target(d, id) == spec_target(d, id2) {
        lemma_target(d, id2);
        lemma_same_target_node(d, id2, id);
        lemma_node_unique(d, id);
        let e = node_dict(d, id)->Some_0;
        lemma_dict_get_remove(e, k, "DV".spec_bytes());
        lemma_dict_get_remove(e, k, "V".spec_bytes());
    }
}

/// Stripping `id` itself leaves it without defaults.
proof fn lemma_strip_step_clears(d: DocView, filled: Seq<Seq<char>>, id: ObjectId)
    requires
        keys_wf(d),
        node_dict(d, id) is Some,
        strip_applies(d, filled, id),
    ensures
        no_defaults(strip_step(d, filled, id), id),
{
    let e = node_dict(d, id)->Some_0;
    let mid = spec_remove_in_object(d, id, "DV".spec_bytes());
    lemma_node_unique(d, id);
    lemma_node_after_remove(d, id, "DV".spec_bytes(), id);
    lemma_dict_get_remove(e, "DV".spec_bytes(), "DV".spec_bytes());
    let e1 = dict_remove(e, "DV".spec_bytes());
    lemma_node_after_remove(mid, id, "V".spec_bytes(), id);
    lemma_dict_get_remove(e1, "V".spec_bytes(), "V".spec_bytes());
    lemma_keys_differ();
    lemma_dict_get_remove(e1, "V".spec_bytes(), "DV".spec_bytes());
}

/// Stripping any id keeps `id` without defaults.
proof fn lemma_strip_step_keeps(d: DocView, filled: Seq<Seq<char>>, id2: ObjectId, id: ObjectId)
    requires
        keys_wf(d),
        no_defaults(d, id),
    ensures
        no_defaults(strip_step(d, filled, id2), id),
{
    if strip_applies(d, filled, id2) {
        let mid = spec_remove_in_object(d, id2, "DV".spec_bytes());
        lemma_remove_keeps_no_defaults(d, id2, "DV".spec_bytes(), id);
        lemma_remove_keeps_structure(d, id2, "DV".spec_bytes());
        lemma_remove_keeps_no_defaults(mid, id2, "V".spec_bytes(), id);
    }
}

proof fn lemma_strip_fold_clears(
    d0: DocView,
    d: DocView,
    filled: Seq<Seq<char>>,
    ids: Seq<ObjectId>,
    id: ObjectId,
)
    requires
        keys_wf(d),
        same_structure(d0, d),
        walk_ends(d0, id, Inherited::Nothing),
        node_dict(d0, id) is Some,
        strip_applies(d0, filled, id),
        no_defaults(d, id) || ids.contains(id),
    ensures
        no_defaults(strip_fold(d, filled, ids), id),
    decreases ids.len(),
{
    if ids.len() > 0 {
        let prev = strip_fold(d, filled, ids.drop_last());
        lemma_strip_fold_keeps(d, filled, ids.drop_last());
        lemma_same_structure_trans(d0, d, prev);
        if no_defaults(d, id) || ids.drop_last().contains(id) {
            lemma_strip_fold_clears(d0, d, filled, ids.drop_last(), id);
            lemma_strip_step_keeps(prev, filled, ids.last(), id);
        } else {
            assert(ids.last() == id) by {
                let k = choose|k: int| 0 <= k < ids.len() && ids[k] == id;
                if k < ids.len() - 1 {
                    assert(ids.drop_last()[k] == id);
                }
            }
            lemma_field_info_agree(d0, prev, id);
            lemma_node_dict_agree(d0, prev, id);
            lemma_strip_step_clears(prev, filled, id);
        }
    }
}

/// Stripping removes `/DV` and `/V` from every choice field or widget whose name is
/// not empty and not among the filled names.
pub proof fn law_strip_removes_defaults(d: DocView, filled: Seq<Seq<char>>, id: ObjectId)
    requires
        walks_end(d),
        keys_wf(d),
        spec_all_ids(d).contains(id),
        node_dict(d, id) is Some,
        strip_applies(d, filled, id),
    ensures
        no_defaults(strip_fold(d, filled, spec_all_ids(d)), id),
{
    let k = choose|k: int| 0 <= k < spec_all_ids(d).len() && spec_all_ids(d)[k] == id;
    assert(walk_ends(d, spec_all_ids(d)[k], Inherited::Nothing));
    lemma_same_structure_refl(d);
    lemma_strip_fold_clears(d, d, filled, spec_all_ids(d), id);
}

proof fn lemma_strip_fold_untouched(d0: DocView, d: DocView, filled: Seq<Seq<char>>, ids: Seq<ObjectId>, id: ObjectId)
    requires
        keys_wf(d),
        same_structure(d0, d),
        walk_ends(d0, id, Inherited::Nothing),
        !strip_applies(d0, filled, id),
    ensures
        node_dict(strip_fold(d, filled, ids), id) == node_dict(d, id),
    decreases ids.len(),
{
    if ids.len() > 0 {
        let prev = strip_fold(d, filled, ids.drop_last());
        lemma_strip_fold_untouched(d0, d, filled, ids.drop_last(), id);
        lemma_strip_fold_keeps(d, filled, ids.drop_last());
        lemma_same_structure_trans(d0, d, prev);
        let id2 = ids.last();
        if strip_applies(prev, filled, id2) {
            let mid = spec_remove_in_object(prev, id2, "DV".spec_bytes());
            lemma_node_after_remove(prev, id2, "DV".spec_bytes(), id);
            lemma_node_after_remove(prev, id2, "DV".spec_bytes(), id2);
            lemma_node_after_remove(mid, id2, "V".spec_bytes(), id);
            if node_dict(prev, id2) is Some && spec_target(prev, id) == spec_target(prev, id2) {
                lemma_target(prev, id2);
                lemma_same_target_node(prev, id2, id);
                lemma_field_info_agree(d0, prev, id);
                lemma_same_node_info(prev, id, id2);
                assert(false);
            }
        }
    }
}

/// Stripping leaves the dictionary of every other field or widget as it was.
pub proof fn law_strip_keeps_others(d: DocView, filled: Seq<Seq<char>>, id: ObjectId)
    requires
        walks_end(d),
        keys_wf(d),
        spec_all_ids(d).contains(id),
        !strip_applies(d, filled, id),
    ensures
        node_dict(strip_fold(d, filled, spec_all_ids(d)), id) == node_dict(d, id),
{
    let k = choose|k: int| 0 <= k < spec_all_ids(d).len() && spec_all_ids(d)[k] == id;
    assert(walk_ends(d, spec_all_ids(d)[k], Inherited::Nothing));
    lemma_same_structure_refl(d);
    lemma_strip_fold_untouched(d, d, filled, spec_all_ids(d), id);
}

/// Stripping touches only choice fields: every field or widget whose type is not `Ch`
/// (a text field, a button with its `/V` and `/DV`, a field without a type) keeps its
/// dictionary exactly as it was, whatever names were filled.
pub proof fn law_strip_keeps_non_choice(d: DocView, filled: Seq<Seq<char>>, id: ObjectId)
    requires
        walks_end(d),
        keys_wf(d),
        spec_all_ids(d).contains(id),
        spec_field_type(d, id) != Some("Ch"@),
    ensures
        node_dict(strip_fold(d, filled, spec_all_ids(d)), id) == node_dict(d, id),
{
    law_strip_keeps_others(d, filled, id);
}

// ---------------------------------------------------------------------------
// Word wrap.
// ---------------------------------------------------------------------------

/// Words joined by single spaces.
pub open spec fn joined(g: Seq<Seq<char>>) -> Seq<char>
    decreases g.len(),
{
    if g.len() == 0 {
        Seq::empty()
    } else if g.len() == 1 {
        g[0]
    } else {
        joined(g.drop_last()) + seq![' '] + g.last()
    }
}

/// Groups of words, one after another.
pub open spec fn flatten(gs: Seq<Seq<Seq<char>>>) -> Seq<Seq<char>>
    decreases gs.len(),
{
    if gs.len() == 0 {
        Seq::empty()
    } else {
        flatten(gs.drop_last()) + gs.last()
    }
}

/// Each group joined by single spaces.
pub open spec fn joined_all(gs: Seq<Seq<Seq<char>>>) -> Seq<Seq<char>> {
    gs.map_values(|g: Seq<Seq<char>>| joined(g))
}

/// The words of each line, as greedy filling groups them: the finished groups and the
/// group under way.
pub open spec fn wrap_groups(w: Seq<Seq<char>>, m: nat) -> (Seq<Seq<Seq<char>>>, Seq<Seq<char>>)
    decreases w.len(),
{
    if w.len() == 0 {
        (Seq::empty(), Seq::empty())
    } else {
        let (gs, cg) = wrap_groups(w.drop_last(), m);
        let word = w.last();
        if cg.len() == 0 {
            (gs, seq![word])
        } else if joined(cg).len() + 1 + word.len() <= m {
            (gs, cg.push(word))
        } else {
            (gs.push(cg), seq![word])
        }
    }
}

/// The words of each line of a wrapped paragraph.
pub open spec fn paragraph_groups(p: Seq<char>, m: nat) -> Seq<Seq<Seq<char>>> {
    let (gs, cg) = wrap_groups(words(p), m);
    gs.push(cg)
}

/// A group of two words or more fits in `m` characters.
pub open spec fn fits(g: Seq<Seq<char>>, m: nat) -> bool {
    g.len() >= 2 ==> joined(g).len() <= m
}

proof fn lemma_words_nonempty_items(s: Seq<char>)
    ensures
        forall|i: int| 0 <= i < words(s).len() ==> (#[trigger] words(s)[i]).len() > 0,
    decreases s.len(),
{
    if s.len() > 0 {
        lemma_words_nonempty_items(s.drop_last());
        let w = words(s.drop_last());
        let c = s.last();
        if !spec_is_whitespace(c) && !(s.len() == 1 || spec_is_whitespace(s[s.len() - 2])) {
            crate::layout::lemma_words_nonempty(s.drop_last());
            assert(words(s) == w.update(w.len() - 1, w.last().push(c)));
            assert forall|i: int| 0 <= i < words(s).len() implies (#[trigger] words(s)[i]).len() > 0 by {
                if i < w.len() - 1 {
                    assert(words(s)[i] == w[i]);
                }
            }
        }
    }
}

proof fn lemma_joined_nonempty(g: Seq<Seq<char>>)
    requires
        g.len() > 0,
        forall|i: int| 0 <= i < g.len() ==> (#[trigger] g[i]).len() > 0,
    ensures
        joined(g).len() > 0,
    decreases g.len(),
{
    if g.len() > 1 {
        lemma_joined_nonempty(g.drop_last());
    }
}

proof fn lemma_wrap_groups(w: Seq<Seq<char>>, m: nat)
    requires
        forall|i: int| 0 <= i < w.len() ==> (#[trigger] w[i]).len() > 0,
    ensures
        ({
            let (gs, cg) = wrap_groups(w, m);
            &&& wrap_state(w, m) == (joined_all(gs), joined(cg))
            &&& flatten(gs) + cg == w
            &&& (cg.len() > 0 <==> w.len() > 0)
            &&& forall|i: int| 0 <= i < cg.len() ==> (#[trigger] cg[i]).len() > 0
            &&& forall|i: int| 0 <= i < gs.len() ==> (#[trigger] gs[i]).len() > 0
            &&& fits(cg, m)
            &&& forall|i: int| 0 <= i < gs.len() ==> fits(#[trigger] gs[i], m)
        }),
    decreases w.len(),
{
    if w.len() > 0 {
        let pre = w.drop_last();
        lemma_wrap_groups(pre, m);
        let (gs, cg) = wrap_groups(pre, m);
        let word = w.last();
        assert(word.len() > 0);
        if cg.len() > 0 {
            lemma_joined_nonempty(cg);
        }
        if cg.len() == 0 {
            assert(flatten(gs) + seq![word] =~= w);
            assert(joined(seq![word]) == word);
        } else if joined(cg).len() + 1 + word.len() <= m {
            assert(cg.push(word).drop_last() =~= cg);
            assert(flatten(gs) + cg.push(word) =~= (flatten(gs) + cg).push(word));
            assert(pre.push(word) =~= w);
        } else {
            let gs2 = gs.push(cg);
            assert(gs2.drop_last() =~= gs);
            assert(flatten(gs2) + seq![word] =~= w);
            assert(joined_all(gs2) =~= joined_all(gs).push(joined(cg)));
            assert(joined(seq![word]) == word);
        }
    } else {
        assert(joined_all(Seq::<Seq<Seq<char>>>::empty()) =~= Seq::<Seq<char>>::empty());
    }
}

/// Wrapping never splits, drops or reorders words: the lines of a paragraph are its
/// words, in order, grouped into runs joined by single spaces; a line of two words or
/// more fits in `m` characters, so only a word longer than a line overflows, alone.
pub proof fn law_wrap_paragraph(p: Seq<char>, m: nat)
    ensures
        wrap_paragraph(p, m) == joined_all(paragraph_groups(p, m)),
        flatten(paragraph_groups(p, m)) == words(p),
        forall|i: int| 0 <= i < paragraph_groups(p, m).len() ==> fits(#[trigger] paragraph_groups(p, m)[i], m),
{
    lemma_words_nonempty_items(p);
    lemma_wrap_groups(words(p), m);
    let (gs, cg) = wrap_groups(words(p), m);
    let g2 = gs.push(cg);
    assert(g2.drop_last() =~= gs);
    assert(joined_all(g2) =~= joined_all(gs).push(joined(cg)));
    assert forall|i: int| 0 <= i < g2.len() implies fits(#[trigger] g2[i], m) by {
        if i < gs.len() {
            assert(g2[i] == gs[i]);
        }
    }
}

// ---------------------------------------------------------------------------
// The data file.
// ---------------------------------------------------------------------------

/// Reading the data file skips null values and keeps every other member, with its
/// value as text: a pair is read exactly when a member has that name and a value that
/// is not null with that text.
pub proof fn law_data_skips_nulls(m: Seq<(Seq<char>, JsonView)>)
    ensures
        forall|p: (Seq<char>, Seq<char>)|
            spec_data_from_json(m).contains(p) <==> exists|j: int|
                0 <= j < m.len() && (#[trigger] m[j]).0 == p.0 && json_text(m[j].1) == Some(p.1),
    decreases m.len(),
{
    if m.len() > 0 {
        let pre = m.drop_last();
        law_data_skips_nulls(pre);
        let r = spec_data_from_json(pre);
        assert forall|p: (Seq<char>, Seq<char>)|
            spec_data_from_json(m).contains(p) <==> exists|j: int|
                0 <= j < m.len() && (#[trigger] m[j]).0 == p.0 && json_text(m[j].1) == Some(p.1) by {
            if exists|j: int| 0 <= j < pre.len() && (#[trigger] pre[j]).0 == p.0 && json_text(pre[j].1) == Some(p.1) {
                let j = choose|j: int| 0 <= j < pre.len() && (#[trigger] pre[j]).0 == p.0 && json_text(pre[j].1) == Some(p.1);
                assert(m[j] == pre[j]);
            }
            if exists|j: int| 0 <= j < m.len() && (#[trigger] m[j]).0 == p.0 && json_text(m[j].1) == Some(p.1) {
                let j = choose|j: int| 0 <= j < m.len() && (#[trigger] m[j]).0 == p.0 && json_text(m[j].1) == Some(p.1);
                if j < pre.len() {
                    assert(pre[j] == m[j]);
                    assert(r.contains(p));
                    if let Some(t) = json_text(m.last().1) {
                        let k = choose|k: int| 0 <= k < r.len() && r[k] == p;
                        assert(r.push((m.last().0, t))[k] == p);
                    }
                } else {
                    assert(spec_data_from_json(m) == r.push(p));
                    assert(r.push(p)[r.len() as int] == p);
                }
            }
            if spec_data_from_json(m).contains(p) {
                let k = choose|k: int| 0 <= k < spec_data_from_json(m).len() && spec_data_from_json(m)[k] == p;
                if k < r.len() {
                    assert(r[k] == p);
                    assert(r.contains(p));
                } else {
                    assert(m[m.len() - 1].0 == p.0);
                }
            }
        }
    }
}

} // verus!
