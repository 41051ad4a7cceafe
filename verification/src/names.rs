use vstd::prelude::*;
use crate::object::ObjectId;
use crate::document::{DocView, PdfDocument, spec_catalog};
use crate::fields::{Inherited, get_field_name, spec_field_name, walk_ends};
use crate::collect::{collect_field_ids, collect_page_annotation_ids, fields_end, spec_annot_ids, spec_field_ids};
use crate::text::{chars_of, string_from_chars};

verus! {

broadcast use vstd::seq::group_seq_axioms;

// ---------------------------------------------------------------------------
// Ordering texts.
// ---------------------------------------------------------------------------

/// `a` comes before `b`, character by character (by code point), a prefix first.
pub open spec fn text_lt(a: Seq<char>, b: Seq<char>) -> bool
    decreases a.len(),
{
    if a.len() == 0 {
        b.len() > 0
    } else if b.len() == 0 {
        false
    } else if a[0] != b[0] {
        (a[0] as u32) < (b[0] as u32)
    } else {
        text_lt(a.drop_first(), b.drop_first())
    }
}

pub proof fn lemma_text_lt_irreflexive(a: Seq<char>)
    ensures
        !text_lt(a, a),
    decreases a.len(),
{
    if a.len() > 0 {
        lemma_text_lt_irreflexive(a.drop_first());
    }
}

pub proof fn lemma_text_lt_transitive(a: Seq<char>, b: Seq<char>, c: Seq<char>)
    requires
        text_lt(a, b),
        text_lt(b, c),
    ensures
        text_lt(a, c),
    decreases a.len(),
{
    if a.len() > 0 && b.len() > 0 && c.len() > 0 && a[0] == b[0] && b[0] == c[0] {
        lemma_text_lt_transitive(a.drop_first(), b.drop_first(), c.drop_first());
    }
}

pub proof fn lemma_text_lt_total(a: Seq<char>, b: Seq<char>)
    ensures
        a != b ==> text_lt(a, b) || text_lt(b, a),
        text_lt(a, b) ==> !text_lt(b, a),
    decreases a.len(),
{
    if a.len() > 0 && b.len() > 0 {
        if a[0] == b[0] {
            lemma_text_lt_total(a.drop_first(), b.drop_first());
            if a.drop_first() == b.drop_first() {
                assert(a =~= seq![a[0]] + a.drop_first());
                assert(b =~= seq![b[0]] + b.drop_first());
            }
        } else {
            vstd::utf8::char_u32_cast(a[0], a[0] as u32);
            vstd::utf8::char_u32_cast(b[0], b[0] as u32);
        }
    } else if a.len() == 0 && b.len() == 0 {
        assert(a =~= b);
    }
}

/// Whether `a` comes before `b`.
pub fn text_less(a: &[char], b: &[char]) -> (r: bool)
    ensures
        r == text_lt(a@, b@),
{
    let mut i: usize = 0;
    assert(a@.skip(0) =~= a@);
    assert(b@.skip(0) =~= b@);
    loop
        invariant
            0 <= i <= a@.len(),
            i <= b@.len(),
            text_lt(a@, b@) == text_lt(a@.skip(i as int), b@.skip(i as int)),
        decreases a@.len() - i,
    {
        if i == a.len() {
            return i < b.len();
        }
        if i == b.len() {
            return false;
        }
        if a[i] != b[i] {
            return (a[i] as u32) < (b[i] as u32);
        }
        assert(a@.skip(i as int).drop_first() =~= a@.skip(i + 1));
        assert(b@.skip(i as int).drop_first() =~= b@.skip(i + 1));
        i = i + 1;
    }
}

/// Each text comes before the next: sorted, and no text twice.
pub open spec fn strictly_sorted(s: Seq<Seq<char>>) -> bool {
    forall|i: int, j: int| 0 <= i < j < s.len() ==> text_lt(s[i], s[j])
}

/// Adds `t` to the strictly sorted texts `out`, where it is not there yet.
pub fn insert_sorted(out: &mut Vec<Vec<char>>, t: Vec<char>)
    requires
        strictly_sorted(crate::layout::texts(old(out)@)),
    ensures
        strictly_sorted(crate::layout::texts(final(out)@)),
        forall|x: Seq<char>|
            crate::layout::texts(final(out)@).contains(x) <==> (crate::layout::texts(old(out)@).contains(x)
                || x == t@),
{
    let ghost s = crate::layout::texts(out@);
    let mut j: usize = 0;
    while j < out.len() && text_less(out[j].as_slice(), t.as_slice())
        invariant
            s == crate::layout::texts(out@),
            0 <= j <= out@.len(),
            forall|i: int| 0 <= i < j ==> text_lt(#[trigger] s[i], t@),
        decreases out@.len() - j,
    {
        j = j + 1;
    }
    if j < out.len() && crate::layout::chars_eq(out[j].as_slice(), t.as_slice()) {
        assert(s[j as int] == t@);
        return;
    }
    proof {
        if j < s.len() {
            lemma_text_lt_total(s[j as int], t@);
            assert forall|i: int| j < i < s.len() implies text_lt(t@, #[trigger] s[i]) by {
                lemma_text_lt_transitive(t@, s[j as int], s[i]);
            }
        }
    }
    out.insert(j, t);
    let ghost s2 = crate::layout::texts(out@);
    assert(s2 =~= s.insert(j as int, t@));
    assert forall|x: Seq<char>| s2.contains(x) <==> (s.contains(x) || x == t@) by {
        if s2.contains(x) {
            let k = choose|k: int| 0 <= k < s2.len() && s2[k] == x;
            if k < j {
                assert(s[k] == x);
            } else if k > j {
                assert(s[k - 1] == x);
            }
        }
        if s.contains(x) {
            let k = choose|k: int| 0 <= k < s.len() && s[k] == x;
            if k < j {
                assert(s2[k] == x);
            } else {
                assert(s2[k + 1] == x);
            }
        }
        if x == t@ {
            assert(s2[j as int] == x);
        }
    }
    assert forall|a: int, b: int| 0 <= a < b < s2.len() implies text_lt(s2[a], s2[b]) by {
        if b < j {
        } else if b == j {
        } else if a < j {
            lemma_text_lt_transitive(s2[a], t@, s2[b]);
        } else if a == j {
        } else {
        }
    }
}

// ---------------------------------------------------------------------------
// Listing field names.
// ---------------------------------------------------------------------------

/// The ids of the form fields, then those of the page annotations.
pub open spec fn spec_all_ids(d: DocView) -> Seq<ObjectId> {
    spec_field_ids(d) + spec_annot_ids(d)
}

/// What listing the fields needs: a catalog, a field tree that ends, and a `/Parent`
/// chain that ends above every id listed.
pub open spec fn walks_end(d: DocView) -> bool {
    &&& spec_catalog(d) is Ok
    &&& fields_end(d)
    &&& forall|i: int|
        0 <= i < spec_all_ids(d).len() ==> walk_ends(d, #[trigger] spec_all_ids(d)[i], Inherited::Nothing)
}

/// `t` is the name of one of the fields or annotations.
pub open spec fn is_field_name(d: DocView, t: Seq<char>) -> bool {
    exists|i: int| 0 <= i < spec_all_ids(d).len() && spec_field_name(d, #[trigger] spec_all_ids(d)[i]) == Some(t)
}

/// The texts of a vector of strings.
pub open spec fn string_texts(v: Seq<String>) -> Seq<Seq<char>> {
    v.map_values(|s: String| s@)
}

/// The names of all fields and widget annotations, sorted, each once.
pub fn list_field_names(doc: &PdfDocument) -> (r: Vec<String>)
    requires
        walks_end(doc@),
    ensures
        strictly_sorted(string_texts(r@)),
        forall|t: Seq<char>| string_texts(r@).contains(t) <==> is_field_name(doc@, t),
{
    let ghost d = doc@;
    let mut all_ids = collect_field_ids(doc);
    let annots = collect_page_annotation_ids(doc);
    crate::text::push_all(&mut all_ids, annots.as_slice());
    let mut names: Vec<Vec<char>> = Vec::new();
    let mut i: usize = 0;
    while i < all_ids.len()
        invariant
            d == doc@,
            walks_end(d),
            all_ids@ == spec_all_ids(d),
            0 <= i <= all_ids@.len(),
            strictly_sorted(crate::layout::texts(names@)),
            forall|t: Seq<char>|
                crate::layout::texts(names@).contains(t) <==> exists|k: int|
                    0 <= k < i && spec_field_name(d, #[trigger] all_ids@[k]) == Some(t),
        decreases all_ids@.len() - i,
    {
        let id = all_ids[i];
        assert(walk_ends(d, spec_all_ids(d)[i as int], Inherited::Nothing));
        let ghost before = crate::layout::texts(names@);
        match get_field_name(doc, id) {
            Some(name) => {
                let ghost nm = name@;
                insert_sorted(&mut names, chars_of(name.as_str()));
                assert forall|t: Seq<char>| crate::layout::texts(names@).contains(t) <==> exists|k: int|
                    0 <= k < i + 1 && spec_field_name(d, #[trigger] all_ids@[k]) == Some(t) by {
                    if t == nm {
                        assert(spec_field_name(d, all_ids@[i as int]) == Some(t));
                    }
                    if exists|k: int| 0 <= k < i + 1 && spec_field_name(d, #[trigger] all_ids@[k]) == Some(t) {
                        let k = choose|k: int| 0 <= k < i + 1 && spec_field_name(d, #[trigger] all_ids@[k]) == Some(t);
                        if k < i {
                            assert(before.contains(t));
                        }
                    }
                }
            },
            None => {
                assert forall|t: Seq<char>| crate::layout::texts(names@).contains(t) <==> exists|k: int|
                    0 <= k < i + 1 && spec_field_name(d, #[trigger] all_ids@[k]) == Some(t) by {
                    if exists|k: int| 0 <= k < i + 1 && spec_field_name(d, #[trigger] all_ids@[k]) == Some(t) {
                        let k = choose|k: int| 0 <= k < i + 1 && spec_field_name(d, #[trigger] all_ids@[k]) == Some(t);
                        if k == i {
                            assert(false);
                        }
                    }
                }
            },
        }
        i = i + 1;
    }
    let mut out: Vec<String> = Vec::new();
    let mut j: usize = 0;
    while j < names.len()
        invariant
            0 <= j <= names@.len(),
            out@.len() == j,
            forall|k: int| 0 <= k < j ==> #[trigger] out@[k]@ == names@[k]@,
        decreases names@.len() - j,
    {
        out.push(string_from_chars(names[j].as_slice()));
        j = j + 1;
    }
    assert(string_texts(out@) =~= crate::layout::texts(names@));
    out
}

} // verus!
