use vstd::prelude::*;
use vstd::string::StringSliceAdditionalSpecFns;
use crate::object::ObjectId;
use crate::document::{DocView, PdfDocument, spec_remove_in_object};
use crate::fields::{Inherited, get_field_name, get_field_type, spec_field_name, spec_field_type, walk_ends,
    lemma_walk_stop};
use crate::collect::{collect_field_ids, collect_page_annotation_ids};
use crate::names::{spec_all_ids, string_texts, walks_end};
use crate::layout::chars_eq;
use crate::text::{chars_of, push_all};
use crate::fill::{field_type_is, type_is};
use crate::structure::{
    keys_wf, same_structure, lemma_field_info_agree, lemma_remove_keeps_structure, lemma_same_structure_refl,
    lemma_same_structure_trans,
};

verus! {

broadcast use vstd::seq::group_seq_axioms;

/// `id` is a choice field with a name that is not among `filled`.
pub open spec fn strip_applies(d: DocView, filled: Seq<Seq<char>>, id: ObjectId) -> bool {
    &&& type_is(spec_field_type(d, id), "Ch"@)
    &&& match spec_field_name(d, id) {
        Some(n) => n.len() > 0 && !filled.contains(n),
        None => false,
    }
}

/// Removing `/DV`, then `/V`, from the unfilled choice field `id`.
pub open spec fn strip_step(d: DocView, filled: Seq<Seq<char>>, id: ObjectId) -> DocView {
    if strip_applies(d, filled, id) {
        spec_remove_in_object(spec_remove_in_object(d, id, "DV".spec_bytes()), id, "V".spec_bytes())
    } else {
        d
    }
}

/// Stripping the ids `ids` in order.
pub open spec fn strip_fold(d: DocView, filled: Seq<Seq<char>>, ids: Seq<ObjectId>) -> DocView
    decreases ids.len(),
{
    if ids.len() == 0 {
        d
    } else {
        strip_step(strip_fold(d, filled, ids.drop_last()), filled, ids.last())
    }
}

/// Whether `name` is among `filled`.
fn is_filled(filled: &[String], name: &str) -> (r: bool)
    ensures
        r == string_texts(filled@).contains(name@),
{
    let ghost s = string_texts(filled@);
    let n = chars_of(name);
    let mut j: usize = 0;
    while j < filled.len()
        invariant
            s == string_texts(filled@),
            n@ == name@,
            0 <= j <= filled@.len(),
            forall|k: int| 0 <= k < j ==> s[k] != name@,
        decreases filled@.len() - j,
    {
        let c = chars_of(filled[j].as_str());
        if chars_eq(c.as_slice(), n.as_slice()) {
            assert(s[j as int] == name@);
            return true;
        }
        j = j + 1;
    }
    false
}

/// Removes `/DV` and `/V` from every choice field (dropdown) whose name is not among
/// `filled_keys`, so that viewers show no template default in an empty dropdown.
pub fn strip_unfilled_dropdowns(doc: &mut PdfDocument, filled_keys: &[String])
    requires
        walks_end(old(doc)@),
        keys_wf(old(doc)@),
    ensures
        final(doc)@ == strip_fold(old(doc)@, string_texts(filled_keys@), spec_all_ids(old(doc)@)),
        same_structure(old(doc)@, final(doc)@),
        keys_wf(final(doc)@),
{
    let ghost d0 = doc@;
    let ghost fk = string_texts(filled_keys@);
    let mut ids = collect_field_ids(doc);
    let annots = collect_page_annotation_ids(doc);
    push_all(&mut ids, annots.as_slice());
    let mut i: usize = 0;
    proof {
        lemma_same_structure_refl(d0);
        assert(ids@.take(0) =~= Seq::<ObjectId>::empty());
    }
    while i < ids.len()
        invariant
            ids@ == spec_all_ids(d0),
            walks_end(d0),
            fk == string_texts(filled_keys@),
            0 <= i <= ids@.len(),
            same_structure(d0, doc@),
            keys_wf(doc@),
            doc@ == strip_fold(d0, fk, ids@.take(i as int)),
        decreases ids@.len() - i,
    {
        let id = ids[i];
        let ghost cur = doc@;
        proof {
            assert(ids@.take(i + 1).drop_last() =~= ids@.take(i as int));
            assert(ids@.take(i + 1).last() == id);
            assert(walk_ends(d0, spec_all_ids(d0)[i as int], Inherited::Nothing));
            lemma_field_info_agree(d0, cur, id);
            let f = choose|f: nat| crate::fields::walk(cur, id, f, Inherited::Nothing) is Some;
            lemma_walk_stop(cur, id, f, Inherited::FieldType);
        }
        let ft = get_field_type(doc, id);
        let is_choice = field_type_is(&ft, "Ch");
        let field_name = match get_field_name(doc, id) {
            Some(n) => n,
            None => String::new(),
        };
        if is_choice && !field_name.as_str().is_empty() && !is_filled(filled_keys, field_name.as_str()) {
            doc.remove_in_object(id, "DV".as_bytes());
            let ghost mid = doc@;
            doc.remove_in_object(id, "V".as_bytes());
            proof {
                lemma_remove_keeps_structure(cur, id, "DV".spec_bytes());
                lemma_remove_keeps_structure(mid, id, "V".spec_bytes());
                lemma_same_structure_trans(cur, mid, doc@);
                lemma_same_structure_trans(d0, cur, doc@);
            }
        }
        assert(doc@ == strip_step(cur, fk, id));
        i = i + 1;
    }
    assert(ids@.take(ids@.len() as int) =~= ids@);
}

} // verus!
