use vstd::prelude::*;
use vstd::string::StringSliceAdditionalSpecFns;
use vstd::utf8::encode_utf8;
use crate::object::{Obj, ObjectId, PdfObject, StringFormat, group_views};
use crate::dict::dict_get;
use crate::document::{DocView, PdfDocument, spec_add_object, spec_catalog, spec_set_in_object};
use crate::fields::{
    Inherited, get_field_name, get_field_type, node_dict, spec_da_string, spec_field_flags, spec_field_name,
    spec_field_type, walk_ends, lemma_walk_stop,
};
use crate::layout::{chars_eq, contains_chars, contains_text, font_size_token_from_da, spec_size_token};
use crate::text::{chars_of, pdf_string_to_rust, pdf_text_string, push_all, push_str_chars, spec_string_value,
    spec_text_string, utf8_bytes};
use crate::collect::{collect_field_ids, collect_page_annotation_ids, spec_annot_ids, spec_field_ids};
use crate::names::{spec_all_ids, walks_end};
use crate::appearance::{
    Layout, LayoutRequest, generate_appearance_stream, helv_da, is_multiline, laid_out, spec_appearance,
    spec_appearance_stream, spec_field_rect, spec_install,
};
use crate::structure::{
    doc_wf, same_structure, lemma_add_keeps_structure, lemma_annot_ids_agree, lemma_catalog_agree,
    lemma_field_ids_agree, lemma_field_info_agree, lemma_same_structure_refl, lemma_same_structure_trans,
    lemma_set_keeps_structure,
};

verus! {

broadcast use {vstd::seq::group_seq_axioms, group_views};

// ---------------------------------------------------------------------------
// Field values.
// ---------------------------------------------------------------------------

/// `t` is the field type spelled `name`.
pub open spec fn type_is(t: Option<Seq<char>>, name: Seq<char>) -> bool {
    t == Some(name)
}

/// Whether the field type `t` is the one spelled `name`.
pub fn field_type_is(t: &Option<String>, name: &str) -> (r: bool)
    ensures
        r == type_is(opt_view(*t), name@),
{
    match t {
        Some(s) => {
            let a = chars_of(s.as_str());
            let b = chars_of(name);
            chars_eq(a.as_slice(), b.as_slice())
        },
        None => false,
    }
}

/// The view of an optional string.
pub open spec fn opt_view(t: Option<String>) -> Option<Seq<char>> {
    match t {
        Some(s) => Some(s@),
        None => None,
    }
}

/// Storing `value` in the field `id`: a button gets the name `value` as its value
/// `/V` and its appearance state `/AS`; any other field gets `value` as a text string
/// in `/V`.
pub open spec fn spec_set_field_value(d: DocView, id: ObjectId, value: Seq<char>) -> DocView {
    if type_is(spec_field_type(d, id), "Btn"@) {
        let n = Obj::Name(encode_utf8(value));
        spec_set_in_object(spec_set_in_object(d, id, "V".spec_bytes(), n), id, "AS".spec_bytes(), n)
    } else {
        spec_set_in_object(d, id, "V".spec_bytes(), spec_text_string(value))
    }
}

/// A name object holding the UTF-8 bytes of `value`.
fn name_of(value: &str) -> (o: PdfObject)
    ensures
        o@ == Obj::Name(encode_utf8(value@)),
{
    PdfObject::Name(vstd::slice::slice_to_vec(value.as_bytes()))
}

/// The bytes of a key.
fn key(s: &str) -> (b: Vec<u8>)
    ensures
        b@ == s.spec_bytes(),
{
    vstd::slice::slice_to_vec(s.as_bytes())
}

/// Stores `value` in the field `id` (the field's name is not consulted).
pub fn set_field_value(doc: &mut PdfDocument, id: ObjectId, _name: &str, value: &str)
    requires
        walk_ends(old(doc)@, id, Inherited::FieldType),
    ensures
        final(doc)@ == spec_set_field_value(old(doc)@, id, value@),
{
    let field_type = get_field_type(doc, id);
    if field_type_is(&field_type, "Btn") {
        doc.set_in_object(id, key("V"), name_of(value));
        doc.set_in_object(id, key("AS"), name_of(value));
    } else {
        doc.set_in_object(id, key("V"), pdf_text_string(value));
    }
}

// ---------------------------------------------------------------------------
// The form-wide flag that asks viewers to rebuild appearances.
// ---------------------------------------------------------------------------

/// Setting `/NeedAppearances` to true in the interactive form dictionary, where the
/// catalog refers to it by reference.
pub open spec fn spec_set_need_appearances(d: DocView) -> DocView {
    match spec_catalog(d) {
        Ok(c) => match dict_get(c, "AcroForm".spec_bytes()) {
            Some(Obj::Reference(a)) => spec_set_in_object(
                d,
                a,
                "NeedAppearances".spec_bytes(),
                Obj::Boolean(true),
            ),
            _ => d,
        },
        Err(_) => d,
    }
}

/// Sets `/NeedAppearances` to true in the interactive form dictionary.
pub fn set_need_appearances(doc: &mut PdfDocument)
    requires
        spec_catalog(old(doc)@) is Ok,
    ensures
        final(doc)@ == spec_set_need_appearances(old(doc)@),
{
    let acroform = match doc.catalog() {
        Ok(c) => match c.get("AcroForm".as_bytes()) {
            Some(a) => a.as_reference(),
            None => None,
        },
        Err(_) => None,
    };
    if let Some(a) = acroform {
        doc.set_in_object(a, key("NeedAppearances"), PdfObject::Boolean(true));
    }
}

// ---------------------------------------------------------------------------
// Default appearances that select standard Helvetica.
// ---------------------------------------------------------------------------

/// The `/DA` that the dictionary `id` reaches holds itself, as text.
pub open spec fn own_da(d: DocView, id: ObjectId) -> Option<Seq<char>> {
    match node_dict(d, id) {
        Some(e) => match dict_get(e, "DA".spec_bytes()) {
            Some(o) => spec_string_value(o),
            None => None,
        },
        None => None,
    }
}

/// A text field or a choice field.
pub open spec fn is_text_field(t: Option<Seq<char>>) -> bool {
    type_is(t, "Tx"@) || type_is(t, "Ch"@)
}

/// The `/DA` of `id` is rewritten: it has its own readable `/DA`, and it is a text or
/// choice field or its `/DA` names the font `ArialMT`.
pub open spec fn normalize_applies(d: DocView, id: ObjectId) -> bool {
    match own_da(d, id) {
        Some(da) => is_text_field(spec_field_type(d, id)) || contains_text(da, "ArialMT"@),
        None => false,
    }
}

/// `tok` is the font size operand of `da`, where it has one.
pub open spec fn is_size_request(tok: Option<String>, da: Seq<char>) -> bool {
    match tok {
        Some(t) => spec_size_token(da) == Some(t@),
        None => spec_size_token(da) is None,
    }
}

/// `s` is what `size_text` answers for the font size operand of `da`.
pub open spec fn sized<S: Fn(Option<String>) -> String>(size_text: S, da: Seq<char>, s: String) -> bool {
    exists|tok: Option<String>| #[trigger] is_size_request(tok, da) && size_text.ensures((tok,), s)
}

/// The `/DA` that selects Helvetica at the size written `size`, as a string object.
pub open spec fn helv_da_object(size: Seq<char>) -> Obj {
    Obj::Str(encode_utf8(helv_da(size)), StringFormat::Literal)
}

/// One step of the rewrite, with `size` the size written for this field.
pub open spec fn normalize_step(d: DocView, id: ObjectId, size: Seq<char>) -> DocView {
    if normalize_applies(d, id) {
        spec_set_in_object(d, id, "DA".spec_bytes(), helv_da_object(size))
    } else {
        d
    }
}

/// The rewrite over `ids` in order, the `i`-th with size `sizes[i]`.
pub open spec fn normalize_fold(d: DocView, ids: Seq<ObjectId>, sizes: Seq<String>) -> DocView
    decreases ids.len(),
{
    if ids.len() == 0 {
        d
    } else {
        normalize_step(normalize_fold(d, ids.drop_last(), sizes.drop_last()), ids.last(), sizes.last()@)
    }
}

/// Each size used is what `size_text` answers for the `/DA` it replaces.
pub open spec fn normalize_answers<S: Fn(Option<String>) -> String>(
    size_text: S,
    d: DocView,
    ids: Seq<ObjectId>,
    sizes: Seq<String>,
) -> bool
    decreases ids.len(),
{
    if ids.len() == 0 {
        true
    } else {
        let prev = normalize_fold(d, ids.drop_last(), sizes.drop_last());
        &&& normalize_answers(size_text, d, ids.drop_last(), sizes.drop_last())
        &&& (normalize_applies(prev, ids.last()) ==> sized(size_text, own_da(prev, ids.last())->Some_0, sizes.last()))
    }
}

/// The rewrite of every field and annotation, with sizes `sizes` that `size_text` answered.
pub open spec fn normalized<S: Fn(Option<String>) -> String>(
    size_text: S,
    d: DocView,
    sizes: Seq<String>,
    d2: DocView,
) -> bool {
    &&& sizes.len() == spec_all_ids(d).len()
    &&& normalize_answers(size_text, d, spec_all_ids(d), sizes)
    &&& d2 == normalize_fold(d, spec_all_ids(d), sizes)
}

/// Points the `/DA` of every text and choice widget that has its own, and of every
/// widget whose `/DA` names `ArialMT`, at standard Helvetica, keeping the size; the size
/// is written by `size_text` from the size operand of the old `/DA`.
fn normalize_text_das<S: Fn(Option<String>) -> String>(doc: &mut PdfDocument, size_text: &S) -> (sizes: Ghost<
    Seq<String>,
>)
    requires
        walks_end(old(doc)@),
        doc_wf(old(doc)@),
        forall|t: Option<String>| size_text.requires((t,)),
    ensures
        normalized(*size_text, old(doc)@, sizes@, final(doc)@),
        same_structure(old(doc)@, final(doc)@),
        doc_wf(final(doc)@),
        final(doc)@.max_id == old(doc)@.max_id,
{
    let ghost d0 = doc@;
    let mut ids = collect_field_ids(doc);
    let annots = collect_page_annotation_ids(doc);
    push_all(&mut ids, annots.as_slice());
    let ghost mut sizes: Seq<String> = Seq::empty();
    let mut i: usize = 0;
    proof {
        lemma_same_structure_refl(d0);
        assert(ids@.take(0) =~= Seq::<ObjectId>::empty());
    }
    while i < ids.len()
        invariant
            ids@ == spec_all_ids(d0),
            walks_end(d0),
            0 <= i <= ids@.len(),
            same_structure(d0, doc@),
            doc_wf(doc@),
            doc@.max_id == d0.max_id,
            sizes.len() == i,
            normalize_answers(*size_text, d0, ids@.take(i as int), sizes),
            doc@ == normalize_fold(d0, ids@.take(i as int), sizes),
            forall|t: Option<String>| size_text.requires((t,)),
        decreases ids@.len() - i,
    {
        let id = ids[i];
        let ghost cur = doc@;
        proof {
            assert(ids@.take(i + 1).drop_last() =~= ids@.take(i as int));
            assert(ids@.take(i + 1).last() == id);
            assert(crate::fields::walk_ends(d0, spec_all_ids(d0)[i as int], Inherited::Nothing));
            lemma_field_info_agree(d0, cur, id);
            let f = choose|f: nat| crate::fields::walk(cur, id, f, Inherited::Nothing) is Some;
            lemma_walk_stop(cur, id, f, Inherited::FieldType);
        }
        let ft = get_field_type(doc, id);
        let is_text = field_type_is(&ft, "Tx") || field_type_is(&ft, "Ch");
        let own: Option<String> = match doc.get_object(id) {
            Ok(o) => match o.as_dict() {
                Some(dd) => match dd.get("DA".as_bytes()) {
                    Some(x) => match pdf_string_to_rust(x) {
                        Ok(s) => Some(s),
                        Err(_) => None,
                    },
                    None => None,
                },
                None => None,
            },
            Err(_) => None,
        };
        assert(opt_view(own) == own_da(cur, id));
        let ghost mut answer: String = vstd::pervasive::arbitrary();
        match own {
            Some(da) => {
                let da_chars = chars_of(da.as_str());
                let arial = chars_of("ArialMT");
                if is_text || contains_chars(da_chars.as_slice(), arial.as_slice()) {
                    let tok = font_size_token_from_da(da.as_str());
                    let ghost tok_g = tok;
                    let s = size_text(tok);
                    let mut text: Vec<char> = Vec::new();
                    push_str_chars(&mut text, "/Helv ");
                    push_str_chars(&mut text, s.as_str());
                    push_str_chars(&mut text, " Tf 0 g");
                    assert(text@ =~= helv_da(s@));
                    doc.set_in_object(id, key("DA"), PdfObject::Str(utf8_bytes(text.as_slice()), StringFormat::Literal));
                    proof {
                        assert(is_size_request(tok_g, da@));
                        assert(sized(*size_text, da@, s));
                        answer = s;
                        lemma_set_keeps_structure(cur, id, "DA".spec_bytes(), helv_da_object(s@));
                        lemma_same_structure_trans(d0, cur, doc@);
                    }
                }
            },
            None => {},
        }
        proof {
            let sizes2 = sizes.push(answer);
            assert(sizes2.drop_last() =~= sizes);
            assert(doc@ == normalize_step(cur, id, answer@));
            sizes = sizes2;
        }
        i = i + 1;
    }
    assert(ids@.take(ids@.len() as int) =~= ids@);
    Ghost(sizes)
}

// ---------------------------------------------------------------------------
// Filling the form.
// ---------------------------------------------------------------------------

/// The pairs of field name and value, as texts.
pub open spec fn data_view(data: Seq<(String, String)>) -> Seq<(Seq<char>, Seq<char>)> {
    data.map_values(|p: (String, String)| (p.0@, p.1@))
}

/// The value of the first pair named `n`.
pub open spec fn spec_lookup(data: Seq<(Seq<char>, Seq<char>)>, n: Seq<char>) -> Option<Seq<char>>
    decreases data.len(),
{
    if data.len() == 0 {
        None
    } else if data[0].0 == n {
        Some(data[0].1)
    } else {
        spec_lookup(data.drop_first(), n)
    }
}

/// The value of the first pair named `name`.
pub fn lookup<'a>(data: &'a [(String, String)], name: &str) -> (r: Option<&'a String>)
    ensures
        match r {
            Some(v) => spec_lookup(data_view(data@), name@) == Some(v@),
            None => spec_lookup(data_view(data@), name@) is None,
        },
{
    let ghost dv = data_view(data@);
    let n = chars_of(name);
    let mut i: usize = 0;
    assert(dv.skip(0) =~= dv);
    while i < data.len()
        invariant
            dv == data_view(data@),
            n@ == name@,
            0 <= i <= data@.len(),
            spec_lookup(dv, name@) == spec_lookup(dv.skip(i as int), name@),
        decreases data@.len() - i,
    {
        let k = chars_of(data[i].0.as_str());
        assert(dv.skip(i as int)[0] == (data@[i as int].0@, data@[i as int].1@));
        if chars_eq(k.as_slice(), n.as_slice()) {
            return Some(&data[i].1);
        }
        assert(dv.skip(i as int).drop_first() =~= dv.skip(i + 1));
        i = i + 1;
    }
    None
}

/// The value that filling writes into `id`: the value paired with the field's name,
/// where there is one and it is not empty.
pub open spec fn step_value(d: DocView, data: Seq<(Seq<char>, Seq<char>)>, id: ObjectId) -> Option<Seq<char>> {
    match spec_field_name(d, id) {
        Some(n) => match spec_lookup(data, n) {
            Some(v) => if v.len() > 0 {
                Some(v)
            } else {
                None
            },
            None => None,
        },
        None => None,
    }
}

/// The name that filling `id` reports as filled.
pub open spec fn step_name(d: DocView, data: Seq<(Seq<char>, Seq<char>)>, id: ObjectId) -> Option<Seq<char>> {
    match step_value(d, data, id) {
        Some(_) => spec_field_name(d, id),
        None => None,
    }
}

/// Filling one widget, with `l` the layout of its appearance: its value is stored,
/// and a field that is not a button gets an appearance stream.
pub open spec fn fill_step(d: DocView, data: Seq<(Seq<char>, Seq<char>)>, id: ObjectId, l: Layout) -> DocView {
    match step_value(d, data, id) {
        Some(v) => {
            let d1 = spec_set_field_value(d, id, v);
            if type_is(spec_field_type(d1, id), "Btn"@) {
                d1
            } else {
                spec_appearance(d1, id, v, l)
            }
        },
        None => d,
    }
}

/// Filling the widgets `ids` in order, the `i`-th laid out by `ls[i]`.
pub open spec fn fill_fold(d: DocView, data: Seq<(Seq<char>, Seq<char>)>, ids: Seq<ObjectId>, ls: Seq<Layout>) -> DocView
    decreases ids.len(),
{
    if ids.len() == 0 {
        d
    } else {
        fill_step(fill_fold(d, data, ids.drop_last(), ls.drop_last()), data, ids.last(), ls.last())
    }
}

/// Where filling `id` generates an appearance, `l` is what `layout` answered for it.
pub open spec fn step_answered<L: Fn(LayoutRequest) -> Layout>(
    layout: L,
    d: DocView,
    data: Seq<(Seq<char>, Seq<char>)>,
    id: ObjectId,
    l: Layout,
) -> bool {
    match step_value(d, data, id) {
        Some(v) => {
            let d1 = spec_set_field_value(d, id, v);
            (!type_is(spec_field_type(d1, id), "Btn"@) && spec_field_rect(d1, id) is Some && spec_da_string(d1, id)
                is Some) ==> laid_out(
                layout,
                spec_field_rect(d1, id)->Some_0,
                spec_da_string(d1, id)->Some_0,
                is_multiline(spec_field_flags(d1, id), v),
                l,
            )
        },
        None => true,
    }
}

/// Every layout used while filling `ids` is what `layout` answered.
pub open spec fn fill_answers<L: Fn(LayoutRequest) -> Layout>(
    layout: L,
    d: DocView,
    data: Seq<(Seq<char>, Seq<char>)>,
    ids: Seq<ObjectId>,
    ls: Seq<Layout>,
) -> bool
    decreases ids.len(),
{
    if ids.len() == 0 {
        true
    } else {
        &&& fill_answers(layout, d, data, ids.drop_last(), ls.drop_last())
        &&& step_answered(layout, fill_fold(d, data, ids.drop_last(), ls.drop_last()), data, ids.last(), ls.last())
    }
}

/// `n` added to the names `s`, unless it is there already.
pub open spec fn add_name(s: Seq<Seq<char>>, n: Option<Seq<char>>) -> Seq<Seq<char>> {
    match n {
        Some(x) => if s.contains(x) {
            s
        } else {
            s.push(x)
        },
        None => s,
    }
}

/// The names `s`, then those filled among `ids`, each once, in the order first filled.
pub open spec fn names_fold(
    s: Seq<Seq<char>>,
    d: DocView,
    data: Seq<(Seq<char>, Seq<char>)>,
    ids: Seq<ObjectId>,
) -> Seq<Seq<char>>
    decreases ids.len(),
{
    if ids.len() == 0 {
        s
    } else {
        add_name(names_fold(s, d, data, ids.drop_last()), step_name(d, data, ids.last()))
    }
}

/// Adds `name` to `filled`, unless it is there already.
fn add_filled(filled: &mut Vec<String>, name: String)
    ensures
        crate::names::string_texts(final(filled)@) == add_name(crate::names::string_texts(old(filled)@), Some(name@)),
{
    let ghost s = crate::names::string_texts(filled@);
    let n = chars_of(name.as_str());
    let mut j: usize = 0;
    while j < filled.len()
        invariant
            s == crate::names::string_texts(filled@),
            n@ == name@,
            0 <= j <= filled@.len(),
            forall|k: int| 0 <= k < j ==> s[k] != name@,
        decreases filled@.len() - j,
    {
        let c = chars_of(filled[j].as_str());
        if chars_eq(c.as_slice(), n.as_slice()) {
            assert(s[j as int] == name@);
            return;
        }
        j = j + 1;
    }
    filled.push(name);
    assert(crate::names::string_texts(filled@) =~= s.push(name@));
}

/// Storing a value keeps the structure.
pub proof fn lemma_set_field_value_keeps(d: DocView, id: ObjectId, v: Seq<char>)
    requires
        doc_wf(d),
    ensures
        same_structure(d, spec_set_field_value(d, id, v)),
        doc_wf(spec_set_field_value(d, id, v)),
        spec_set_field_value(d, id, v).max_id == d.max_id,
{
    if type_is(spec_field_type(d, id), "Btn"@) {
        let n = Obj::Name(encode_utf8(v));
        let d1 = spec_set_in_object(d, id, "V".spec_bytes(), n);
        lemma_set_keeps_structure(d, id, "V".spec_bytes(), n);
        lemma_set_keeps_structure(d1, id, "AS".spec_bytes(), n);
        lemma_same_structure_trans(d, d1, spec_set_field_value(d, id, v));
    } else {
        lemma_set_keeps_structure(d, id, "V".spec_bytes(), spec_text_string(v));
    }
}

/// Generating an appearance keeps the structure and adds one object at most.
pub proof fn lemma_appearance_keeps(d: DocView, id: ObjectId, v: Seq<char>, l: Layout)
    requires
        doc_wf(d),
        d.max_id < u32::MAX,
    ensures
        same_structure(d, spec_appearance(d, id, v, l)),
        doc_wf(spec_appearance(d, id, v, l)),
        spec_appearance(d, id, v, l).max_id <= d.max_id + 1,
{
    if spec_field_rect(d, id) is Some && spec_da_string(d, id) is Some {
        let multiline = is_multiline(spec_field_flags(d, id), v);
        let content = encode_utf8(crate::appearance::spec_content(v, multiline, l));
        let d1 = spec_add_object(d, spec_appearance_stream(l, content));
        let ap = Obj::Dict(
            crate::dict::dict_set(Seq::empty(), "N".spec_bytes(), Obj::Reference(((d.max_id + 1) as u32, 0u16))),
        );
        let d2 = spec_set_in_object(d1, id, "AP".spec_bytes(), ap);
        let d3 = spec_set_in_object(d2, id, "DA".spec_bytes(), helv_da_object(l.font_size@));
        lemma_add_keeps_structure(d, spec_appearance_stream(l, content));
        lemma_set_keeps_structure(d1, id, "AP".spec_bytes(), ap);
        lemma_set_keeps_structure(d2, id, "DA".spec_bytes(), helv_da_object(l.font_size@));
        lemma_same_structure_trans(d, d1, d2);
        lemma_same_structure_trans(d, d2, d3);
        assert(d3 == spec_install(d, id, l, content));
    }
}

/// Fills the widgets `ids` in order from `data`, adding the names filled to `filled`.
fn fill_ids<L: Fn(LayoutRequest) -> Layout>(
    doc: &mut PdfDocument,
    ids: &Vec<ObjectId>,
    data: &[(String, String)],
    layout: &L,
    filled: &mut Vec<String>,
) -> (ls: Ghost<Seq<Layout>>)
    requires
        doc_wf(old(doc)@),
        forall|k: int| 0 <= k < ids@.len() ==> walk_ends(old(doc)@, #[trigger] ids@[k], Inherited::Nothing),
        old(doc)@.max_id + ids@.len() <= u32::MAX,
        forall|req: LayoutRequest| layout.requires((req,)),
    ensures
        ls@.len() == ids@.len(),
        fill_answers(*layout, old(doc)@, data_view(data@), ids@, ls@),
        final(doc)@ == fill_fold(old(doc)@, data_view(data@), ids@, ls@),
        same_structure(old(doc)@, final(doc)@),
        doc_wf(final(doc)@),
        final(doc)@.max_id <= old(doc)@.max_id + ids@.len(),
        crate::names::string_texts(final(filled)@) == names_fold(
            crate::names::string_texts(old(filled)@),
            old(doc)@,
            data_view(data@),
            ids@,
        ),
{
    let ghost d0 = doc@;
    let ghost dv = data_view(data@);
    let ghost names0 = crate::names::string_texts(filled@);
    let ghost mut ls: Seq<Layout> = Seq::empty();
    let mut i: usize = 0;
    proof {
        lemma_same_structure_refl(d0);
        assert(ids@.take(0) =~= Seq::<ObjectId>::empty());
    }
    while i < ids.len()
        invariant
            d0 == old(doc)@,
            dv == data_view(data@),
            names0 == crate::names::string_texts(old(filled)@),
            forall|k: int| 0 <= k < ids@.len() ==> walk_ends(d0, #[trigger] ids@[k], Inherited::Nothing),
            d0.max_id + ids@.len() <= u32::MAX,
            forall|req: LayoutRequest| layout.requires((req,)),
            0 <= i <= ids@.len(),
            ls.len() == i,
            same_structure(d0, doc@),
            doc_wf(doc@),
            doc@.max_id <= d0.max_id + i,
            fill_answers(*layout, d0, dv, ids@.take(i as int), ls),
            doc@ == fill_fold(d0, dv, ids@.take(i as int), ls),
            crate::names::string_texts(filled@) == names_fold(names0, d0, dv, ids@.take(i as int)),
        decreases ids@.len() - i,
    {
        let id = ids[i];
        let ghost cur = doc@;
        proof {
            assert(ids@.take(i + 1).drop_last() =~= ids@.take(i as int));
            assert(ids@.take(i + 1).last() == id);
            assert(walk_ends(d0, ids@[i as int], Inherited::Nothing));
            lemma_field_info_agree(d0, cur, id);
        }
        let ghost mut l: Layout = vstd::pervasive::arbitrary();
        match get_field_name(doc, id) {
            Some(name) => match lookup(data, name.as_str()) {
                Some(value) => {
                    if !value.as_str().is_empty() {
                        proof {
                            let f = choose|f: nat| crate::fields::walk(cur, id, f, Inherited::Nothing) is Some;
                            lemma_walk_stop(cur, id, f, Inherited::FieldType);
                        }
                        set_field_value(doc, id, name.as_str(), value.as_str());
                        let ghost d1 = doc@;
                        proof {
                            lemma_set_field_value_keeps(cur, id, value@);
                            lemma_field_info_agree(cur, d1, id);
                            let f = choose|f: nat| crate::fields::walk(d1, id, f, Inherited::Nothing) is Some;
                            lemma_walk_stop(d1, id, f, Inherited::FieldType);
                            lemma_walk_stop(d1, id, f, Inherited::Flags);
                            lemma_walk_stop(d1, id, f, Inherited::Appearance);
                            crate::fields::lemma_walk_fuel(d1, id, f, Inherited::FieldType);
                            crate::fields::lemma_walk_fuel(d1, id, f, Inherited::Flags);
                            crate::fields::lemma_walk_fuel(d1, id, f, Inherited::Appearance);
                        }
                        let ft = get_field_type(doc, id);
                        if !field_type_is(&ft, "Btn") {
                            let r = generate_appearance_stream(doc, id, value.as_str(), layout);
                            proof {
                                match r {
                                    Some(x) => {
                                        l = x;
                                    },
                                    None => {},
                                }
                                lemma_appearance_keeps(d1, id, value@, l);
                                lemma_same_structure_trans(cur, d1, doc@);
                            }
                        }
                        proof {
                            lemma_same_structure_trans(d0, cur, doc@);
                        }
                        add_filled(filled, name);
                    }
                },
                None => {},
            },
            None => {},
        }
        proof {
            let ls2 = ls.push(l);
            assert(ls2.drop_last() =~= ls);
            assert(doc@ == fill_step(cur, dv, id, l));
            assert(step_answered(*layout, cur, dv, id, l));
            assert(step_name(cur, dv, id) == step_name(d0, dv, id));
            ls = ls2;
        }
        i = i + 1;
    }
    assert(ids@.take(ids@.len() as int) =~= ids@);
    Ghost(ls)
}

pub proof fn lemma_names_fold_append(
    s: Seq<Seq<char>>,
    d: DocView,
    data: Seq<(Seq<char>, Seq<char>)>,
    a: Seq<ObjectId>,
    b: Seq<ObjectId>,
)
    ensures
        names_fold(s, d, data, a + b) == names_fold(names_fold(s, d, data, a), d, data, b),
    decreases b.len(),
{
    if b.len() == 0 {
        assert(a + b =~= a);
    } else {
        lemma_names_fold_append(s, d, data, a, b.drop_last());
        assert((a + b).drop_last() =~= a + b.drop_last());
    }
}

pub proof fn lemma_names_fold_agree(
    s: Seq<Seq<char>>,
    d1: DocView,
    d2: DocView,
    data: Seq<(Seq<char>, Seq<char>)>,
    ids: Seq<ObjectId>,
)
    requires
        same_structure(d1, d2),
        forall|k: int| 0 <= k < ids.len() ==> walk_ends(d1, #[trigger] ids[k], Inherited::Nothing),
    ensures
        names_fold(s, d1, data, ids) == names_fold(s, d2, data, ids),
    decreases ids.len(),
{
    if ids.len() > 0 {
        assert(walk_ends(d1, ids[ids.len() - 1], Inherited::Nothing));
        lemma_field_info_agree(d1, d2, ids.last());
        lemma_names_fold_agree(s, d1, d2, data, ids.drop_last());
    }
}

/// What listing the fields needs holds alike of two documents of the same structure,
/// and they list the same ids.
pub proof fn lemma_walks_end_agree(d1: DocView, d2: DocView)
    requires
        same_structure(d1, d2),
        walks_end(d1),
    ensures
        walks_end(d2),
        spec_all_ids(d1) == spec_all_ids(d2),
{
    lemma_catalog_agree(d1, d2);
    lemma_field_ids_agree(d1, d2);
    lemma_annot_ids_agree(d1, d2);
    assert forall|i: int| 0 <= i < spec_all_ids(d2).len() implies walk_ends(
        d2,
        #[trigger] spec_all_ids(d2)[i],
        Inherited::Nothing,
    ) by {
        assert(walk_ends(d1, spec_all_ids(d1)[i], Inherited::Nothing));
        lemma_field_info_agree(d1, d2, spec_all_ids(d1)[i]);
    }
}

/// `d2` is `d` filled from `data`: the form fields are filled in tree order with
/// layouts `ls1`, then the page annotations with layouts `ls2`; then the `/DA` of the
/// widgets is rewritten with sizes `sizes`, and `/NeedAppearances` is set. Every layout
/// and size used is what `layout` and `size_text` answered.
pub open spec fn spec_filled<L: Fn(LayoutRequest) -> Layout, S: Fn(Option<String>) -> String>(
    layout: L,
    size_text: S,
    d: DocView,
    data: Seq<(Seq<char>, Seq<char>)>,
    ls1: Seq<Layout>,
    ls2: Seq<Layout>,
    sizes: Seq<String>,
    d2: DocView,
) -> bool {
    let fids = spec_field_ids(d);
    let a = fill_fold(d, data, fids, ls1);
    let aids = spec_annot_ids(a);
    let b = fill_fold(a, data, aids, ls2);
    &&& ls1.len() == fids.len()
    &&& fill_answers(layout, d, data, fids, ls1)
    &&& ls2.len() == aids.len()
    &&& fill_answers(layout, a, data, aids, ls2)
    &&& sizes.len() == spec_all_ids(b).len()
    &&& normalize_answers(size_text, b, spec_all_ids(b), sizes)
    &&& d2 == spec_set_need_appearances(normalize_fold(b, spec_all_ids(b), sizes))
}

/// Fills the form of `doc` from the pairs of field name and value in `data`, and
/// returns the names of the fields filled, each once. Appearances are laid out by
/// `layout`; the font sizes of rewritten `/DA` entries are written by `size_text`.
pub fn fill_pdf<L: Fn(LayoutRequest) -> Layout, S: Fn(Option<String>) -> String>(
    doc: &mut PdfDocument,
    data: &[(String, String)],
    layout: &L,
    size_text: &S,
) -> (filled: Vec<String>)
    requires
        walks_end(old(doc)@),
        doc_wf(old(doc)@),
        old(doc)@.max_id + spec_all_ids(old(doc)@).len() <= u32::MAX,
        forall|req: LayoutRequest| layout.requires((req,)),
        forall|t: Option<String>| size_text.requires((t,)),
    ensures
        crate::names::string_texts(filled@) == names_fold(
            Seq::empty(),
            old(doc)@,
            data_view(data@),
            spec_all_ids(old(doc)@),
        ),
        exists|ls1: Seq<Layout>, ls2: Seq<Layout>, sizes: Seq<String>|
            spec_filled(*layout, *size_text, old(doc)@, data_view(data@), ls1, ls2, sizes, final(doc)@),
        same_structure(old(doc)@, final(doc)@),
        doc_wf(final(doc)@),
{
    let ghost d0 = doc@;
    let ghost dv = data_view(data@);
    let mut filled: Vec<String> = Vec::new();
    let field_ids = collect_field_ids(doc);
    proof {
        assert(crate::names::string_texts(filled@) =~= Seq::<Seq<char>>::empty());
        lemma_field_ids_walk(d0);
    }
    let ls1 = fill_ids(doc, &field_ids, data, layout, &mut filled);
    let ghost a = doc@;
    let ghost names1 = crate::names::string_texts(filled@);
    let annot_ids = collect_page_annotation_ids(doc);
    proof {
        lemma_annot_ids_walk(d0, a);
    }
    let ls2 = fill_ids(doc, &annot_ids, data, layout, &mut filled);
    let ghost b = doc@;
    proof {
        lemma_filled_names(d0, a, b, dv, names1, crate::names::string_texts(filled@));
    }
    let sizes = normalize_text_das(doc, size_text);
    let ghost c = doc@;
    proof {
        lemma_same_structure_trans(d0, b, c);
        lemma_catalog_agree(d0, c);
    }
    set_need_appearances(doc);
    proof {
        lemma_need_appearances_keeps(c);
        lemma_same_structure_trans(d0, c, doc@);
        lemma_filled_witness(*layout, *size_text, d0, dv, ls1@, ls2@, sizes@, a, b, c, doc@);
    }
    filled
}

/// The form fields of a document to fill have walks that end.
proof fn lemma_field_ids_walk(d: DocView)
    requires
        walks_end(d),
    ensures
        forall|k: int|
            0 <= k < spec_field_ids(d).len() ==> walk_ends(d, #[trigger] spec_field_ids(d)[k], Inherited::Nothing),
{
    assert forall|k: int| 0 <= k < spec_field_ids(d).len() implies walk_ends(
        d,
        #[trigger] spec_field_ids(d)[k],
        Inherited::Nothing,
    ) by {
        assert(spec_all_ids(d)[k] == spec_field_ids(d)[k]);
    }
}

/// After the form fields are filled, the page annotations still have walks that end.
proof fn lemma_annot_ids_walk(d: DocView, a: DocView)
    requires
        walks_end(d),
        same_structure(d, a),
    ensures
        forall|k: int|
            0 <= k < spec_annot_ids(a).len() ==> walk_ends(a, #[trigger] spec_annot_ids(a)[k], Inherited::Nothing),
        forall|k: int|
            0 <= k < spec_annot_ids(a).len() ==> walk_ends(d, #[trigger] spec_annot_ids(a)[k], Inherited::Nothing),
        spec_annot_ids(a) == spec_annot_ids(d),
        spec_all_ids(d).len() == spec_field_ids(d).len() + spec_annot_ids(d).len(),
{
    lemma_annot_ids_agree(d, a);
    assert forall|k: int| 0 <= k < spec_annot_ids(a).len() implies walk_ends(
        d,
        #[trigger] spec_annot_ids(a)[k],
        Inherited::Nothing,
    ) by {
        let j = spec_field_ids(d).len() + k;
        assert(spec_all_ids(d)[j] == spec_annot_ids(a)[k]);
    }
    assert forall|k: int| 0 <= k < spec_annot_ids(a).len() implies walk_ends(
        a,
        #[trigger] spec_annot_ids(a)[k],
        Inherited::Nothing,
    ) by {
        assert(walk_ends(d, spec_annot_ids(a)[k], Inherited::Nothing));
        lemma_field_info_agree(d, a, spec_annot_ids(a)[k]);
    }
}

/// The names filled over both passes are those filled over all ids, and the
/// document filled so far can still be listed.
proof fn lemma_filled_names(
    d: DocView,
    a: DocView,
    b: DocView,
    dv: Seq<(Seq<char>, Seq<char>)>,
    names1: Seq<Seq<char>>,
    names2: Seq<Seq<char>>,
)
    requires
        walks_end(d),
        same_structure(d, a),
        same_structure(a, b),
        names1 == names_fold(Seq::empty(), d, dv, spec_field_ids(d)),
        names2 == names_fold(names1, a, dv, spec_annot_ids(a)),
    ensures
        names2 == names_fold(Seq::empty(), d, dv, spec_all_ids(d)),
        walks_end(b),
        same_structure(d, b),
{
    lemma_same_structure_trans(d, a, b);
    lemma_walks_end_agree(d, b);
    lemma_annot_ids_agree(d, a);
    lemma_annot_ids_walk(d, a);
    lemma_names_fold_agree(names1, d, a, dv, spec_annot_ids(a));
    lemma_names_fold_append(Seq::empty(), d, dv, spec_field_ids(d), spec_annot_ids(d));
}

/// The steps taken make up `spec_filled`.
proof fn lemma_filled_witness<L: Fn(LayoutRequest) -> Layout, S: Fn(Option<String>) -> String>(
    layout: L,
    size_text: S,
    d: DocView,
    data: Seq<(Seq<char>, Seq<char>)>,
    ls1: Seq<Layout>,
    ls2: Seq<Layout>,
    sizes: Seq<String>,
    a: DocView,
    b: DocView,
    c: DocView,
    d2: DocView,
)
    requires
        ls1.len() == spec_field_ids(d).len(),
        fill_answers(layout, d, data, spec_field_ids(d), ls1),
        a == fill_fold(d, data, spec_field_ids(d), ls1),
        ls2.len() == spec_annot_ids(a).len(),
        fill_answers(layout, a, data, spec_annot_ids(a), ls2),
        b == fill_fold(a, data, spec_annot_ids(a), ls2),
        normalized(size_text, b, sizes, c),
        d2 == spec_set_need_appearances(c),
    ensures
        exists|x: Seq<Layout>, y: Seq<Layout>, z: Seq<String>| spec_filled(layout, size_text, d, data, x, y, z, d2),
{
    assert(spec_filled(layout, size_text, d, data, ls1, ls2, sizes, d2));
}

/// Setting `/NeedAppearances` keeps the structure.
pub proof fn lemma_need_appearances_keeps(d: DocView)
    requires
        doc_wf(d),
    ensures
        same_structure(d, spec_set_need_appearances(d)),
        doc_wf(spec_set_need_appearances(d)),
{
    if let Ok(c) = spec_catalog(d) {
        if let Some(Obj::Reference(a)) = dict_get(c, "AcroForm".spec_bytes()) {
            lemma_set_keeps_structure(d, a, "NeedAppearances".spec_bytes(), Obj::Boolean(true));
        }
    }
}

} // verus!
