use vstd::prelude::*;
use vstd::string::StringSliceAdditionalSpecFns;
use vstd::utf8::encode_utf8;
use crate::object::{Entries, Obj, ObjectId, PdfDict, PdfObject, PdfStream, StringFormat, group_views};
use crate::dict::{dict_get, dict_set};
use crate::document::{DocView, PdfDocument, spec_add_object, spec_set_in_object};
use crate::fields::{
    Inherited, get_da_string, get_field_flags, node_dict, resolve_object, spec_da_string, spec_field_flags,
    spec_resolve, walk_ends,
};
use crate::layout::{contains_chars, contains_text, size_token, spec_size_token, spec_wrap, wrap_chars};
use crate::text::{chars_of, escape, push_all, push_escaped, push_str_chars, string_from_chars, utf8_bytes};

verus! {

broadcast use {vstd::seq::group_seq_axioms, group_views};

// ---------------------------------------------------------------------------
// The rectangle of a widget.
// ---------------------------------------------------------------------------

/// A number of a PDF array: an integer, or a real given by the bits of its 32-bit float.
#[derive(Clone, Copy, Debug, PartialEq)]
pub enum PdfNumber {
    Integer(i64),
    Real(u32),
}

/// The `/Rect` of a widget: `[x1 y1 x2 y2]`.
#[derive(Clone, Copy, Debug, PartialEq)]
pub struct FieldRect {
    pub x1: PdfNumber,
    pub y1: PdfNumber,
    pub x2: PdfNumber,
    pub y2: PdfNumber,
}

pub open spec fn number_of(o: Obj) -> Option<PdfNumber> {
    match o {
        Obj::Integer(n) => Some(PdfNumber::Integer(n)),
        Obj::Real(r) => Some(PdfNumber::Real(r)),
        _ => None,
    }
}

/// The first four entries of the `/Rect` array of the dictionary `id` reaches, where
/// that array has four entries or more and its first four are numbers.
pub open spec fn spec_field_rect(d: DocView, id: ObjectId) -> Option<FieldRect> {
    match node_dict(d, id) {
        Some(e) => match dict_get(e, "Rect".spec_bytes()) {
            Some(r) => match spec_resolve(d, r) {
                Obj::Array(a) => if a.len() >= 4 && number_of(a[0]) is Some && number_of(a[1]) is Some
                    && number_of(a[2]) is Some && number_of(a[3]) is Some {
                    Some(
                        FieldRect {
                            x1: number_of(a[0])->Some_0,
                            y1: number_of(a[1])->Some_0,
                            x2: number_of(a[2])->Some_0,
                            y2: number_of(a[3])->Some_0,
                        },
                    )
                } else {
                    None
                },
                _ => None,
            },
            None => None,
        },
        None => None,
    }
}

fn number(o: &PdfObject) -> (r: Option<PdfNumber>)
    ensures
        r == number_of(o@),
{
    match o {
        PdfObject::Integer(n) => Some(PdfNumber::Integer(*n)),
        PdfObject::Real(r) => Some(PdfNumber::Real(*r)),
        _ => None,
    }
}

/// The rectangle of the widget `id`.
pub fn get_field_rect(doc: &PdfDocument, id: ObjectId) -> (r: Option<FieldRect>)
    ensures
        r == spec_field_rect(doc@, id),
{
    let obj = match doc.get_object(id) {
        Ok(o) => o,
        Err(_) => return None,
    };
    let dict = match obj.as_dict() {
        Some(x) => x,
        None => return None,
    };
    let rect_obj = match dict.get("Rect".as_bytes()) {
        Some(x) => x,
        None => return None,
    };
    let arr = match resolve_object(doc, rect_obj).as_array() {
        Some(a) => a,
        None => return None,
    };
    if arr.len() < 4 {
        return None;
    }
    assert(arr@[0]@ == crate::object::objs_view(arr@)[0]);
    assert(arr@[1]@ == crate::object::objs_view(arr@)[1]);
    assert(arr@[2]@ == crate::object::objs_view(arr@)[2]);
    assert(arr@[3]@ == crate::object::objs_view(arr@)[3]);
    let x1 = match number(&arr[0]) {
        Some(n) => n,
        None => return None,
    };
    let y1 = match number(&arr[1]) {
        Some(n) => n,
        None => return None,
    };
    let x2 = match number(&arr[2]) {
        Some(n) => n,
        None => return None,
    };
    let y2 = match number(&arr[3]) {
        Some(n) => n,
        None => return None,
    };
    Some(FieldRect { x1, y1, x2, y2 })
}

// ---------------------------------------------------------------------------
// Appearance streams.
// ---------------------------------------------------------------------------

/// The text-field flag for multiline text (bit 13).
pub const FLAG_MULTILINE: i64 = 0x1000;

/// What the layout of a text appearance depends on: the widget rectangle, the font
/// size operand of its default appearance, and whether the text runs over several lines.
pub struct LayoutRequest {
    pub rect: FieldRect,
    pub font_size: Option<String>,
    pub multiline: bool,
}

/// The measures of a text appearance, all worked out in floating point by the caller.
pub struct Layout {
    /// The font size used, written with two decimals.
    pub font_size: String,
    /// The width and height of the bounding box, as bits of 32-bit floats.
    pub bbox_width: u32,
    pub bbox_height: u32,
    /// Multiline: the leading and the baseline of the first line, with two decimals.
    pub leading: String,
    pub first_baseline: String,
    /// Single line: the baseline, with two decimals.
    pub baseline: String,
    /// Multiline: how many characters fit on a line, and how many lines fit in the box.
    pub max_chars: usize,
    pub max_lines: usize,
}

/// A default appearance that selects standard Helvetica at the size `size`.
pub open spec fn helv_da(size: Seq<char>) -> Seq<char> {
    "/Helv "@ + size + " Tf 0 g"@
}

/// The text operators that show the lines `ls`, one after another.
pub open spec fn line_ops(ls: Seq<Seq<char>>) -> Seq<char>
    decreases ls.len(),
{
    if ls.len() == 0 {
        Seq::empty()
    } else {
        line_ops(ls.drop_last()) + (if ls.len() > 1 {
            "T*\n"@
        } else {
            Seq::empty()
        }) + "("@ + escape(ls.last()) + ") Tj\n"@
    }
}

/// At most the first `n` of `ls`.
pub open spec fn first_lines(ls: Seq<Seq<char>>, n: nat) -> Seq<Seq<char>> {
    if ls.len() > n {
        ls.take(n as int)
    } else {
        ls
    }
}

/// The content of the appearance stream of a text value.
pub open spec fn spec_content(value: Seq<char>, multiline: bool, l: Layout) -> Seq<char> {
    if multiline {
        "/Tx BMC\nBT\n"@ + helv_da(l.font_size@) + "\n"@ + l.leading@ + " TL\n"@ + "2.00 "@ + l.first_baseline@
            + " Td\n"@ + line_ops(first_lines(spec_wrap(value, l.max_chars as nat), l.max_lines as nat))
            + "ET\nEMC"@
    } else {
        "/Tx BMC\nBT\n"@ + helv_da(l.font_size@) + "\n"@ + "2.00 "@ + l.baseline@ + " Td\n("@ + escape(value)
            + ") Tj\nET\nEMC"@
    }
}

/// Builds the content of the appearance stream of a text value.
fn appearance_content(value: &[char], multiline: bool, l: &Layout) -> (c: Vec<char>)
    ensures
        c@ == spec_content(value@, multiline, *l),
{
    let mut out: Vec<char> = Vec::new();
    push_str_chars(&mut out, "/Tx BMC\nBT\n");
    push_str_chars(&mut out, "/Helv ");
    push_str_chars(&mut out, l.font_size.as_str());
    push_str_chars(&mut out, " Tf 0 g");
    push_str_chars(&mut out, "\n");
    if multiline {
        push_str_chars(&mut out, l.leading.as_str());
        push_str_chars(&mut out, " TL\n");
        push_str_chars(&mut out, "2.00 ");
        push_str_chars(&mut out, l.first_baseline.as_str());
        push_str_chars(&mut out, " Td\n");
        let ghost head = out@;
        let mut lines = wrap_chars(value, l.max_chars);
        lines.truncate(l.max_lines);
        let ghost ls = crate::layout::texts(lines@);
        assert(ls =~= first_lines(spec_wrap(value@, l.max_chars as nat), l.max_lines as nat));
        let mut i: usize = 0;
        assert(ls.take(0) =~= Seq::<Seq<char>>::empty());
        while i < lines.len()
            invariant
                0 <= i <= lines@.len(),
                ls == crate::layout::texts(lines@),
                out@ == head + line_ops(ls.take(i as int)),
            decreases lines@.len() - i,
        {
            let ghost before = out@;
            if i > 0 {
                push_str_chars(&mut out, "T*\n");
            }
            push_str_chars(&mut out, "(");
            push_escaped(&mut out, lines[i].as_slice());
            push_str_chars(&mut out, ") Tj\n");
            assert(ls.take(i + 1).drop_last() =~= ls.take(i as int));
            assert(out@ =~= head + line_ops(ls.take(i + 1)));
            i = i + 1;
        }
        assert(ls.take(lines@.len() as int) =~= ls);
        push_str_chars(&mut out, "ET\nEMC");
    } else {
        push_str_chars(&mut out, "2.00 ");
        push_str_chars(&mut out, l.baseline.as_str());
        push_str_chars(&mut out, " Td\n(");
        push_escaped(&mut out, value);
        push_str_chars(&mut out, ") Tj\nET\nEMC");
    }
    assert(out@ =~= spec_content(value@, multiline, *l));
    out
}

/// The bytes of a string literal.
fn literal_bytes(s: &str) -> (b: Vec<u8>)
    ensures
        b@ == s.spec_bytes(),
{
    vstd::slice::slice_to_vec(s.as_bytes())
}

/// A name object spelled `s`.
fn name_object(s: &str) -> (o: PdfObject)
    ensures
        o@ == Obj::Name(s.spec_bytes()),
{
    PdfObject::Name(literal_bytes(s))
}

/// The resources of an appearance: standard Helvetica under the name `Helv`.
pub open spec fn spec_helv_resources() -> Entries {
    let helvetica = dict_set(
        dict_set(
            dict_set(Seq::empty(), "Type".spec_bytes(), Obj::Name("Font".spec_bytes())),
            "Subtype".spec_bytes(),
            Obj::Name("Type1".spec_bytes()),
        ),
        "BaseFont".spec_bytes(),
        Obj::Name("Helvetica".spec_bytes()),
    );
    let fonts = dict_set(Seq::empty(), "Helv".spec_bytes(), Obj::Dict(helvetica));
    dict_set(Seq::empty(), "Font".spec_bytes(), Obj::Dict(fonts))
}

/// The appearance stream object: a form XObject with the given bounding box size and
/// content; `/Length` is stored once with the dictionary and once more as the stream is
/// made, in the same place.
pub open spec fn spec_appearance_stream(l: Layout, content: Seq<u8>) -> Obj {
    let bbox = Obj::Array(seq![Obj::Real(0), Obj::Real(0), Obj::Real(l.bbox_width), Obj::Real(l.bbox_height)]);
    let d = dict_set(
        dict_set(
            dict_set(
                dict_set(Seq::empty(), "Type".spec_bytes(), Obj::Name("XObject".spec_bytes())),
                "Subtype".spec_bytes(),
                Obj::Name("Form".spec_bytes()),
            ),
            "BBox".spec_bytes(),
            bbox,
        ),
        "Resources".spec_bytes(),
        Obj::Dict(spec_helv_resources()),
    );
    let len = Obj::Integer(content.len() as i64);
    Obj::Stream(dict_set(dict_set(d, "Length".spec_bytes(), len), "Length".spec_bytes(), len), content)
}

fn helv_resources() -> (r: PdfDict)
    ensures
        r@ == spec_helv_resources(),
{
    let mut helvetica = PdfDict::new();
    helvetica.set(literal_bytes("Type"), name_object("Font"));
    helvetica.set(literal_bytes("Subtype"), name_object("Type1"));
    helvetica.set(literal_bytes("BaseFont"), name_object("Helvetica"));
    let mut fonts = PdfDict::new();
    fonts.set(literal_bytes("Helv"), PdfObject::Dictionary(helvetica));
    let mut resources = PdfDict::new();
    resources.set(literal_bytes("Font"), PdfObject::Dictionary(fonts));
    resources
}

fn appearance_stream(l: &Layout, content: Vec<u8>) -> (o: PdfObject)
    ensures
        o@ == spec_appearance_stream(*l, content@),
{
    let mut bbox: Vec<PdfObject> = Vec::new();
    bbox.push(PdfObject::Real(0));
    bbox.push(PdfObject::Real(0));
    bbox.push(PdfObject::Real(l.bbox_width));
    bbox.push(PdfObject::Real(l.bbox_height));
    assert(crate::object::objs_view(bbox@) =~= seq![
        Obj::Real(0),
        Obj::Real(0),
        Obj::Real(l.bbox_width),
        Obj::Real(l.bbox_height),
    ]);
    let mut d = PdfDict::new();
    d.set(literal_bytes("Type"), name_object("XObject"));
    d.set(literal_bytes("Subtype"), name_object("Form"));
    d.set(literal_bytes("BBox"), PdfObject::Array(bbox));
    d.set(literal_bytes("Resources"), PdfObject::Dictionary(helv_resources()));
    let len = content.len() as i64;
    // `/Length` is set with the dictionary, and set again when the stream is made.
    d.set(literal_bytes("Length"), PdfObject::Integer(len));
    d.set(literal_bytes("Length"), PdfObject::Integer(len));
    PdfObject::Stream(PdfStream { dict: d, content })
}

/// The text is laid out over several lines: the field is multiline, or the value has a newline.
pub open spec fn is_multiline(flags: i64, value: Seq<char>) -> bool {
    (flags & FLAG_MULTILINE) != 0 || contains_text(value, seq!['\n'])
}

/// The request a text appearance is laid out from.
pub open spec fn is_layout_request(req: LayoutRequest, r: FieldRect, da: Seq<char>, multiline: bool) -> bool {
    &&& req.rect == r
    &&& req.multiline == multiline
    &&& match req.font_size {
        Some(s) => spec_size_token(da) == Some(s@),
        None => spec_size_token(da) is None,
    }
}

/// Adds the appearance stream with layout `l` and content `content`, refers `/AP` of
/// `id` to it, and makes `/DA` of `id` select Helvetica at the layout's size.
pub open spec fn spec_install(d: DocView, id: ObjectId, l: Layout, content: Seq<u8>) -> DocView {
    let d1 = spec_add_object(d, spec_appearance_stream(l, content));
    let ap = Obj::Dict(dict_set(Seq::empty(), "N".spec_bytes(), Obj::Reference(((d.max_id + 1) as u32, 0u16))));
    let d2 = spec_set_in_object(d1, id, "AP".spec_bytes(), ap);
    spec_set_in_object(d2, id, "DA".spec_bytes(), Obj::Str(encode_utf8(helv_da(l.font_size@)), StringFormat::Literal))
}

/// `l` is what `layout` returns for a request with rectangle `r`, the font size operand
/// of `da`, and `multiline`.
pub open spec fn laid_out<L: Fn(LayoutRequest) -> Layout>(
    layout: L,
    r: FieldRect,
    da: Seq<char>,
    multiline: bool,
    l: Layout,
) -> bool {
    exists|req: LayoutRequest| #[trigger] is_layout_request(req, r, da, multiline) && layout.ensures((req,), l)
}

/// The document after the appearance of `value` was generated for `id` with layout `l`:
/// where the widget has a rectangle and a default appearance, a new stream object
/// holds the appearance, `/AP` of the widget refers to it, and `/DA` selects Helvetica.
pub open spec fn spec_appearance(d: DocView, id: ObjectId, value: Seq<char>, l: Layout) -> DocView {
    match (spec_field_rect(d, id), spec_da_string(d, id)) {
        (Some(r), Some(da)) => {
            let multiline = is_multiline(spec_field_flags(d, id), value);
            spec_install(d, id, l, encode_utf8(spec_content(value, multiline, l)))
        },
        _ => d,
    }
}

fn install_appearance(doc: &mut PdfDocument, id: ObjectId, l: &Layout, content: Vec<u8>)
    requires
        old(doc)@.max_id < u32::MAX,
    ensures
        final(doc)@ == spec_install(old(doc)@, id, *l, content@),
{
    let stream = appearance_stream(l, content);
    let ap_id = doc.add_object(stream);
    let mut ap = PdfDict::new();
    ap.set(literal_bytes("N"), PdfObject::Reference(ap_id));
    doc.set_in_object(id, literal_bytes("AP"), PdfObject::Dictionary(ap));
    let mut da_text: Vec<char> = Vec::new();
    push_str_chars(&mut da_text, "/Helv ");
    push_str_chars(&mut da_text, l.font_size.as_str());
    push_str_chars(&mut da_text, " Tf 0 g");
    assert(da_text@ =~= helv_da(l.font_size@));
    let da_bytes = utf8_bytes(da_text.as_slice());
    doc.set_in_object(id, literal_bytes("DA"), PdfObject::Str(da_bytes, StringFormat::Literal));
}

/// Generates a text appearance stream for `id` showing `value`, laid out by `layout`.
pub fn generate_appearance_stream<L: Fn(LayoutRequest) -> Layout>(
    doc: &mut PdfDocument,
    id: ObjectId,
    value: &str,
    layout: &L,
) -> (l: Option<Layout>)
    requires
        walk_ends(old(doc)@, id, Inherited::Appearance),
        walk_ends(old(doc)@, id, Inherited::Flags),
        old(doc)@.max_id < u32::MAX,
        forall|req: LayoutRequest| layout.requires((req,)),
    ensures
        l is Some ==> final(doc)@ == spec_appearance(old(doc)@, id, value@, l->Some_0),
        l is Some ==> spec_field_rect(old(doc)@, id) is Some && spec_da_string(old(doc)@, id) is Some,
        l is Some ==> laid_out(
            *layout,
            spec_field_rect(old(doc)@, id)->Some_0,
            spec_da_string(old(doc)@, id)->Some_0,
            is_multiline(spec_field_flags(old(doc)@, id), value@),
            l->Some_0,
        ),
        l is None ==> final(doc)@ == old(doc)@,
        l is None ==> (spec_field_rect(old(doc)@, id) is None || spec_da_string(old(doc)@, id) is None),
{
    let ghost d = doc@;
    let rect = match get_field_rect(doc, id) {
        Some(r) => r,
        None => return None,
    };
    let da = match get_da_string(doc, id) {
        Some(s) => s,
        None => return None,
    };
    let da_chars = chars_of(da.as_str());
    let token = match size_token(da_chars.as_slice()) {
        Some(t) => Some(string_from_chars(t.as_slice())),
        None => None,
    };
    let value_chars = chars_of(value);
    let mut nl: Vec<char> = Vec::new();
    nl.push('\n');
    let flags = get_field_flags(doc, id);
    let multiline = (flags & FLAG_MULTILINE) != 0 || contains_chars(value_chars.as_slice(), nl.as_slice());
    assert(nl@ =~= seq!['\n']);
    let req = LayoutRequest { rect, font_size: token, multiline };
    let ghost req_spec = req;
    let l = layout(req);
    let content = appearance_content(value_chars.as_slice(), multiline, &l);
    let content_bytes = utf8_bytes(content.as_slice());
    install_appearance(doc, id, &l, content_bytes);
    assert(is_layout_request(req_spec, rect, da@, multiline) && layout.ensures((req_spec,), l));
    Some(l)
}

} // verus!
