use vstd::prelude::*;
use vstd::string::StringSliceAdditionalSpecFns;
use vstd::utf8::{decode_utf8, valid_utf8};
use crate::object::{Entries, Obj, ObjectId, PdfDict, PdfObject, group_views};
use crate::dict::dict_get;
use crate::document::{DocView, PdfDocument, spec_catalog, spec_get_object};
use crate::text::{chars_of, pdf_string_to_rust, push_all, spec_string_value, string_from_chars, utf8_text};

verus! {

broadcast use {vstd::seq::group_seq_axioms, group_views};

// ---------------------------------------------------------------------------
// Following references.
// ---------------------------------------------------------------------------

/// `o`, or the object it refers to where it is a reference that leads somewhere.
pub open spec fn spec_resolve(d: DocView, o: Obj) -> Obj {
    match o {
        Obj::Reference(id) => match spec_get_object(d, id) {
            Ok(x) => x,
            Err(_) => o,
        },
        _ => o,
    }
}

/// The dictionary `o` is, or refers to.
pub open spec fn spec_resolve_dict(d: DocView, o: Obj) -> Option<Entries> {
    match o {
        Obj::Reference(id) => match spec_get_object(d, id) {
            Ok(Obj::Dict(e)) => Some(e),
            _ => None,
        },
        Obj::Dict(e) => Some(e),
        _ => None,
    }
}

/// `obj`, or the object it refers to where it is a reference that leads somewhere.
pub fn resolve_object<'a>(doc: &'a PdfDocument, obj: &'a PdfObject) -> (r: &'a PdfObject)
    ensures
        r@ == spec_resolve(doc@, obj@),
{
    match obj {
        PdfObject::Reference(id) => match doc.get_object(*id) {
            Ok(o) => o,
            Err(_) => obj,
        },
        _ => obj,
    }
}

/// The dictionary `obj` is, or refers to.
pub fn resolve_dict<'a>(doc: &'a PdfDocument, obj: &'a PdfObject) -> (r: Option<&'a PdfDict>)
    ensures
        match r {
            Some(e) => spec_resolve_dict(doc@, obj@) == Some(e@),
            None => spec_resolve_dict(doc@, obj@) is None,
        },
{
    match obj {
        PdfObject::Reference(id) => match doc.get_object(*id) {
            Ok(o) => o.as_dict(),
            Err(_) => None,
        },
        PdfObject::Dictionary(d) => Some(d),
        _ => None,
    }
}

// ---------------------------------------------------------------------------
// Walking up the field hierarchy.
// ---------------------------------------------------------------------------

/// The dictionary that `id` reaches, if it reaches one.
pub open spec fn node_dict(d: DocView, id: ObjectId) -> Option<Entries> {
    match spec_get_object(d, id) {
        Ok(Obj::Dict(e)) => Some(e),
        _ => None,
    }
}

/// The `/Parent` a field dictionary refers to.
pub open spec fn parent_of(e: Entries) -> Option<ObjectId> {
    match dict_get(e, "Parent".spec_bytes()) {
        Some(Obj::Reference(p)) => Some(p),
        _ => None,
    }
}

/// The inheritable entry a walk up the hierarchy looks for.
pub enum Inherited {
    /// None: the walk goes to the root.
    Nothing,
    /// A `/FT` name that is valid UTF-8.
    FieldType,
    /// An integer `/Ff`.
    Flags,
    /// A `/DA` that reads as text.
    Appearance,
}

pub open spec fn ft_found(e: Entries) -> bool {
    match dict_get(e, "FT".spec_bytes()) {
        Some(Obj::Name(b)) => valid_utf8(b),
        _ => false,
    }
}

pub open spec fn ff_found(e: Entries) -> bool {
    dict_get(e, "Ff".spec_bytes()) matches Some(Obj::Integer(_))
}

pub open spec fn da_found(e: Entries) -> bool {
    match dict_get(e, "DA".spec_bytes()) {
        Some(o) => spec_string_value(o) is Some,
        None => false,
    }
}

/// The walk for `k` stops at `e`.
pub open spec fn stops(k: Inherited, e: Entries) -> bool {
    match k {
        Inherited::Nothing => false,
        Inherited::FieldType => ft_found(e),
        Inherited::Flags => ff_found(e),
        Inherited::Appearance => da_found(e),
    }
}

/// The dictionaries met walking up from `id` through `/Parent` references, in `fuel`
/// steps at most: it stops at a dictionary where `k` is found, at one without a
/// parent, or where an id reaches no dictionary. `None` if `fuel` runs out first.
pub open spec fn walk(d: DocView, id: ObjectId, fuel: nat, k: Inherited) -> Option<Seq<Entries>>
    decreases fuel,
{
    if fuel == 0 {
        None
    } else {
        match node_dict(d, id) {
            None => Some(Seq::empty()),
            Some(e) => if stops(k, e) {
                Some(seq![e])
            } else {
                match parent_of(e) {
                    None => Some(seq![e]),
                    Some(p) => match walk(d, p, (fuel - 1) as nat, k) {
                        Some(r) => Some(seq![e] + r),
                        None => None,
                    },
                }
            },
        }
    }
}

/// The walk from `cur`, which is none at all where there is no `cur`.
pub open spec fn walk_from(d: DocView, cur: Option<ObjectId>, fuel: nat, k: Inherited) -> Option<Seq<Entries>> {
    match cur {
        None => Some(Seq::empty()),
        Some(c) => walk(d, c, fuel, k),
    }
}

/// The walk from `id` comes to an end.
pub open spec fn walk_ends(d: DocView, id: ObjectId, k: Inherited) -> bool {
    exists|f: nat| walk(d, id, f, k) is Some
}

/// The dictionaries met walking up from `id`.
pub open spec fn spec_walk(d: DocView, id: ObjectId, k: Inherited) -> Seq<Entries> {
    walk(d, id, choose|f: nat| walk(d, id, f, k) is Some, k).unwrap()
}

pub proof fn lemma_walk_mono(d: DocView, id: ObjectId, f1: nat, f2: nat, k: Inherited)
    requires
        walk(d, id, f1, k) is Some,
        f1 <= f2,
    ensures
        walk(d, id, f2, k) == walk(d, id, f1, k),
    decreases f1,
{
    if let Some(e) = node_dict(d, id) {
        if !stops(k, e) {
            if let Some(p) = parent_of(e) {
                lemma_walk_mono(d, p, (f1 - 1) as nat, (f2 - 1) as nat, k);
            }
        }
    }
}

/// Any fuel that suffices gives the same walk.
pub proof fn lemma_walk_fuel(d: DocView, id: ObjectId, f: nat, k: Inherited)
    requires
        walk(d, id, f, k) is Some,
    ensures
        walk_ends(d, id, k),
        spec_walk(d, id, k) == walk(d, id, f, k).unwrap(),
{
    let g = choose|g: nat| walk(d, id, g, k) is Some;
    if g <= f {
        lemma_walk_mono(d, id, g, f, k);
    } else {
        lemma_walk_mono(d, id, f, g, k);
    }
}

/// A walk to the root that ends makes every shorter walk end.
pub proof fn lemma_walk_stop(d: DocView, id: ObjectId, f: nat, k: Inherited)
    requires
        walk(d, id, f, Inherited::Nothing) is Some,
    ensures
        walk(d, id, f, k) is Some,
    decreases f,
{
    if let Some(e) = node_dict(d, id) {
        if let Some(p) = parent_of(e) {
            lemma_walk_stop(d, p, (f - 1) as nat, k);
        }
    }
}

// ---------------------------------------------------------------------------
// Field names.
// ---------------------------------------------------------------------------

/// The partial names (`/T`) of the dictionaries met, in the order met.
pub open spec fn name_parts(w: Seq<Entries>) -> Seq<Seq<char>>
    decreases w.len(),
{
    if w.len() == 0 {
        Seq::empty()
    } else {
        let rest = name_parts(w.drop_last());
        match dict_get(w.last(), "T".spec_bytes()) {
            Some(t) => match spec_string_value(t) {
                Some(s) => rest.push(s),
                None => rest,
            },
            None => rest,
        }
    }
}

/// The parts joined by dots, last part first.
pub open spec fn join_reversed(ps: Seq<Seq<char>>) -> Seq<char>
    decreases ps.len(),
{
    if ps.len() == 0 {
        Seq::empty()
    } else if ps.len() == 1 {
        ps[0]
    } else {
        join_reversed(ps.drop_first()) + seq!['.'] + ps[0]
    }
}

/// The fully qualified name of a field: its partial names from the root down, joined
/// by dots; `None` where no dictionary met has a partial name.
pub open spec fn spec_field_name(d: DocView, id: ObjectId) -> Option<Seq<char>> {
    let parts = name_parts(spec_walk(d, id, Inherited::Nothing));
    if parts.len() == 0 {
        None
    } else {
        Some(join_reversed(parts))
    }
}

/// The fully qualified name of the field `id`: the partial names up the `/Parent`
/// chain, from the root down, joined by dots.
pub fn get_field_name(doc: &PdfDocument, id: ObjectId) -> (r: Option<String>)
    requires
        walk_ends(doc@, id, Inherited::Nothing),
    ensures
        match r {
            Some(s) => spec_field_name(doc@, id) == Some(s@),
            None => spec_field_name(doc@, id) is None,
        },
{
    let ghost d = doc@;
    let ghost f0 = choose|f: nat| walk(d, id, f, Inherited::Nothing) is Some;
    proof {
        lemma_walk_fuel(d, id, f0, Inherited::Nothing);
    }
    let ghost mut f = f0;
    let ghost mut visited: Seq<Entries> = Seq::empty();
    let mut parts: Vec<Vec<char>> = Vec::new();
    let mut cur: Option<ObjectId> = Some(id);
    loop
        invariant_except_break
            d == doc@,
            walk(d, id, f0, Inherited::Nothing) == match walk_from(d, cur, f, Inherited::Nothing) {
                Some(r) => Some(visited + r),
                None => None,
            },
            walk(d, id, f0, Inherited::Nothing) is Some,
            crate::layout::texts(parts@) == name_parts(visited),
        ensures
            walk(d, id, f0, Inherited::Nothing) == Some(visited),
            crate::layout::texts(parts@) == name_parts(visited),
        decreases f,
    {
        let cid = match cur {
            None => {
                assert(visited + Seq::<Entries>::empty() =~= visited);
                break;
            },
            Some(c) => c,
        };
        let dict = match doc.get_object(cid) {
            Ok(obj) => match obj.as_dict() {
                Some(dict) => dict,
                None => {
                    assert(visited + Seq::<Entries>::empty() =~= visited);
                    break;
                },
            },
            Err(_) => {
                assert(visited + Seq::<Entries>::empty() =~= visited);
                break;
            },
        };
        let ghost e = dict@;
        let ghost next_visited = visited.push(e);
        assert(next_visited.drop_last() =~= visited);
        match dict.get("T".as_bytes()) {
            Some(t) => match pdf_string_to_rust(t) {
                Ok(name) => {
                    parts.push(chars_of(name.as_str()));
                    assert(crate::layout::texts(parts@) =~= name_parts(next_visited));
                },
                Err(_) => {},
            },
            None => {},
        }
        cur = match dict.get("Parent".as_bytes()) {
            Some(p) => p.as_reference(),
            None => None,
        };
        proof {
            match walk(d, cid, f, Inherited::Nothing) {
                Some(r) => {
                    assert(visited + r =~= next_visited + r.drop_first());
                },
                None => {},
            }
            visited = next_visited;
            f = (f - 1) as nat;
        }
    }
    proof {
        lemma_walk_fuel(d, id, f0, Inherited::Nothing);
    }
    let n = parts.len();
    if n == 0 {
        return None;
    }
    let mut out: Vec<char> = Vec::new();
    push_all(&mut out, parts[n - 1].as_slice());
    let mut i = n - 1;
    let ghost ps = crate::layout::texts(parts@);
    assert(ps.subrange(n - 1, n as int).drop_first() =~= Seq::<Seq<char>>::empty());
    while i > 0
        invariant
            0 <= i < n,
            n == parts@.len(),
            ps == crate::layout::texts(parts@),
            out@ == join_reversed(ps.subrange(i as int, n as int)),
        decreases i,
    {
        i = i - 1;
        let ghost sub = ps.subrange(i as int, n as int);
        assert(sub.drop_first() =~= ps.subrange(i + 1, n as int));
        out.push('.');
        push_all(&mut out, parts[i].as_slice());
        assert(out@ =~= join_reversed(sub));
    }
    assert(ps.subrange(0, n as int) =~= ps);
    Some(string_from_chars(out.as_slice()))
}


// ---------------------------------------------------------------------------
// Inherited entries: field type, flags, default appearance.
// ---------------------------------------------------------------------------

/// Whether the walk for `k` stops at `e`.
pub fn stops_at(k: &Inherited, e: &PdfDict) -> (r: bool)
    ensures
        r == stops(*k, e@),
{
    match k {
        Inherited::Nothing => false,
        Inherited::FieldType => match e.get("FT".as_bytes()) {
            Some(o) => match o.as_name() {
                Some(b) => utf8_text(b.as_slice()).is_some(),
                None => false,
            },
            None => false,
        },
        Inherited::Flags => match e.get("Ff".as_bytes()) {
            Some(o) => o.as_integer().is_some(),
            None => false,
        },
        Inherited::Appearance => match e.get("DA".as_bytes()) {
            Some(o) => pdf_string_to_rust(o).is_ok(),
            None => false,
        },
    }
}

/// The dictionary where the walk for `k` found what it looks for.
pub open spec fn spec_found(d: DocView, id: ObjectId, k: Inherited) -> Option<Entries> {
    let w = spec_walk(d, id, k);
    if w.len() > 0 && stops(k, w.last()) {
        Some(w.last())
    } else {
        None
    }
}

/// Walks up from `id` and returns the dictionary where `k` is found.
pub fn find_inherited<'a>(doc: &'a PdfDocument, id: ObjectId, k: Inherited) -> (r: Option<&'a PdfDict>)
    requires
        walk_ends(doc@, id, k),
    ensures
        match r {
            Some(e) => spec_found(doc@, id, k) == Some(e@),
            None => spec_found(doc@, id, k) is None,
        },
{
    let ghost d = doc@;
    let ghost f0 = choose|f: nat| walk(d, id, f, k) is Some;
    proof {
        lemma_walk_fuel(d, id, f0, k);
    }
    let ghost mut f = f0;
    let ghost mut visited: Seq<Entries> = Seq::empty();
    let mut cur: Option<ObjectId> = Some(id);
    loop
        invariant
            d == doc@,
            walk(d, id, f0, k) == match walk_from(d, cur, f, k) {
                Some(r) => Some(visited + r),
                None => None,
            },
            walk(d, id, f0, k) is Some,
            spec_walk(d, id, k) == walk(d, id, f0, k).unwrap(),
            visited.len() > 0 ==> !stops(k, visited.last()),
        decreases f,
    {
        let cid = match cur {
            None => {
                assert(visited + Seq::<Entries>::empty() =~= visited);
                return None;
            },
            Some(c) => c,
        };
        let dict = match doc.get_object(cid) {
            Ok(obj) => match obj.as_dict() {
                Some(dict) => dict,
                None => {
                    assert(visited + Seq::<Entries>::empty() =~= visited);
                    return None;
                },
            },
            Err(_) => {
                assert(visited + Seq::<Entries>::empty() =~= visited);
                return None;
            },
        };
        if stops_at(&k, dict) {
            assert(visited + seq![dict@] =~= visited.push(dict@));
            return Some(dict);
        }
        let ghost e = dict@;
        let ghost next_visited = visited.push(e);
        cur = match dict.get("Parent".as_bytes()) {
            Some(p) => p.as_reference(),
            None => None,
        };
        proof {
            match walk(d, cid, f, k) {
                Some(r) => {
                    assert(visited + r =~= next_visited + r.drop_first());
                },
                None => {},
            }
            visited = next_visited;
            f = (f - 1) as nat;
        }
    }
}

/// The field type of `id`: the first `/FT` name up the `/Parent` chain.
pub open spec fn spec_field_type(d: DocView, id: ObjectId) -> Option<Seq<char>> {
    match spec_found(d, id, Inherited::FieldType) {
        Some(e) => match dict_get(e, "FT".spec_bytes()) {
            Some(Obj::Name(b)) => Some(decode_utf8(b)),
            _ => None,
        },
        None => None,
    }
}

/// The field type of `id` (`Tx`, `Btn`, `Ch`, ...), inherited through `/Parent`.
pub fn get_field_type(doc: &PdfDocument, id: ObjectId) -> (r: Option<String>)
    requires
        walk_ends(doc@, id, Inherited::FieldType),
    ensures
        match r {
            Some(s) => spec_field_type(doc@, id) == Some(s@),
            None => spec_field_type(doc@, id) is None,
        },
{
    match find_inherited(doc, id, Inherited::FieldType) {
        Some(e) => match e.get("FT".as_bytes()) {
            Some(o) => match o.as_name() {
                Some(b) => utf8_text(b.as_slice()),
                None => None,
            },
            None => None,
        },
        None => None,
    }
}

/// The field flags of `id`: the first integer `/Ff` up the `/Parent` chain, else 0.
pub open spec fn spec_field_flags(d: DocView, id: ObjectId) -> i64 {
    match spec_found(d, id, Inherited::Flags) {
        Some(e) => match dict_get(e, "Ff".spec_bytes()) {
            Some(Obj::Integer(n)) => n,
            _ => 0,
        },
        None => 0,
    }
}

/// The field flags of `id`, inherited through `/Parent`; 0 where none is given.
pub fn get_field_flags(doc: &PdfDocument, id: ObjectId) -> (r: i64)
    requires
        walk_ends(doc@, id, Inherited::Flags),
    ensures
        r == spec_field_flags(doc@, id),
{
    match find_inherited(doc, id, Inherited::Flags) {
        Some(e) => match e.get("Ff".as_bytes()) {
            Some(o) => match o.as_integer() {
                Some(n) => n,
                None => 0,
            },
            None => 0,
        },
        None => 0,
    }
}

/// The `/DA` of the interactive form dictionary.
pub open spec fn acroform_da(d: DocView) -> Option<Seq<char>> {
    match spec_catalog(d) {
        Ok(c) => match dict_get(c, "AcroForm".spec_bytes()) {
            Some(a) => match spec_resolve_dict(d, a) {
                Some(f) => match dict_get(f, "DA".spec_bytes()) {
                    Some(o) => spec_string_value(o),
                    None => None,
                },
                None => None,
            },
            None => None,
        },
        Err(_) => None,
    }
}

/// The default appearance string of `id`: the first readable `/DA` up the `/Parent`
/// chain, else that of the interactive form.
pub open spec fn spec_da_string(d: DocView, id: ObjectId) -> Option<Seq<char>> {
    match spec_found(d, id, Inherited::Appearance) {
        Some(e) => spec_string_value(dict_get(e, "DA".spec_bytes()).unwrap()),
        None => acroform_da(d),
    }
}

/// The default appearance string of `id`, inherited through `/Parent`, falling back to
/// the one of the interactive form.
pub fn get_da_string(doc: &PdfDocument, id: ObjectId) -> (r: Option<String>)
    requires
        walk_ends(doc@, id, Inherited::Appearance),
    ensures
        match r {
            Some(s) => spec_da_string(doc@, id) == Some(s@),
            None => spec_da_string(doc@, id) is None,
        },
{
    match find_inherited(doc, id, Inherited::Appearance) {
        Some(e) => match e.get("DA".as_bytes()) {
            Some(o) => match pdf_string_to_rust(o) {
                Ok(s) => return Some(s),
                Err(_) => return None,
            },
            None => return None,
        },
        None => {},
    }
    let catalog = match doc.catalog() {
        Ok(c) => c,
        Err(_) => return None,
    };
    let acroform_ref = match catalog.get("AcroForm".as_bytes()) {
        Some(a) => a,
        None => return None,
    };
    let acroform = match resolve_dict(doc, acroform_ref) {
        Some(f) => f,
        None => return None,
    };
    match acroform.get("DA".as_bytes()) {
        Some(o) => match pdf_string_to_rust(o) {
            Ok(s) => Some(s),
            Err(_) => None,
        },
        None => None,
    }
}

} // verus!
