use vstd::prelude::*;
use vstd::string::StringSliceAdditionalSpecFns;

verus! {

broadcast use vstd::seq::group_seq_axioms;

/// Identifies an indirect object: object number and generation number.
pub type ObjectId = (u32, u16);

/// How a string object is written out.
#[derive(Clone, Copy, Debug, PartialEq, Eq, Structural)]
pub enum StringFormat {
    Literal,
    Hexadecimal,
}

/// The mathematical value of a PDF object.
pub enum Obj {
    Null,
    Boolean(bool),
    Integer(i64),
    /// A real number, given by the bits of its 32-bit float.
    Real(u32),
    Name(Seq<u8>),
    Str(Seq<u8>, StringFormat),
    Array(Seq<Obj>),
    Dict(Seq<(Seq<u8>, Obj)>),
    Stream(Seq<(Seq<u8>, Obj)>, Seq<u8>),
    Reference(ObjectId),
}

/// A PDF object.
#[derive(Debug, PartialEq)]
pub enum PdfObject {
    Null,
    Boolean(bool),
    Integer(i64),
    /// A real number, given by the bits of its 32-bit float.
    Real(u32),
    Name(Vec<u8>),
    Str(Vec<u8>, StringFormat),
    Array(Vec<PdfObject>),
    Dictionary(PdfDict),
    Stream(PdfStream),
    Reference(ObjectId),
}

/// A dictionary: its entries in insertion order.
#[derive(Debug, PartialEq)]
pub struct PdfDict {
    pub entries: Vec<(Vec<u8>, PdfObject)>,
}

/// A stream: its dictionary and its raw content.
#[derive(Debug, PartialEq)]
pub struct PdfStream {
    pub dict: PdfDict,
    pub content: Vec<u8>,
}

pub open spec fn obj_view(o: PdfObject) -> Obj
    decreases o,
{
    match o {
        PdfObject::Null => Obj::Null,
        PdfObject::Boolean(b) => Obj::Boolean(b),
        PdfObject::Integer(n) => Obj::Integer(n),
        PdfObject::Real(r) => Obj::Real(r),
        PdfObject::Name(n) => Obj::Name(n@),
        PdfObject::Str(s, f) => Obj::Str(s@, f),
        PdfObject::Array(v) => Obj::Array(objs_view(v@)),
        PdfObject::Dictionary(d) => Obj::Dict(entries_view(d.entries@)),
        PdfObject::Stream(s) => Obj::Stream(entries_view(s.dict.entries@), s.content@),
        PdfObject::Reference(id) => Obj::Reference(id),
    }
}

pub open spec fn objs_view(s: Seq<PdfObject>) -> Seq<Obj>
    decreases s,
{
    if s.len() == 0 {
        Seq::empty()
    } else {
        objs_view(s.subrange(0, s.len() - 1)).push(obj_view(s[s.len() - 1]))
    }
}

pub open spec fn entries_view(s: Seq<(Vec<u8>, PdfObject)>) -> Seq<(Seq<u8>, Obj)>
    decreases s,
{
    if s.len() == 0 {
        Seq::empty()
    } else {
        entries_view(s.subrange(0, s.len() - 1)).push((s[s.len() - 1].0@, obj_view(s[s.len() - 1].1)))
    }
}


/// The dictionary entries of a dictionary model, as a sequence of key/value pairs.
pub type Entries = Seq<(Seq<u8>, Obj)>;

pub broadcast proof fn lemma_objs_view(s: Seq<PdfObject>)
    ensures
        #[trigger] objs_view(s).len() == s.len(),
        forall|i: int| 0 <= i < s.len() ==> #[trigger] objs_view(s)[i] == obj_view(s[i]),
    decreases s.len(),
{
    if s.len() > 0 {
        lemma_objs_view(s.subrange(0, s.len() - 1));
    }
}

pub broadcast proof fn lemma_entries_view(s: Seq<(Vec<u8>, PdfObject)>)
    ensures
        #[trigger] entries_view(s).len() == s.len(),
        forall|i: int|
            0 <= i < s.len() ==> #[trigger] entries_view(s)[i] == (s[i].0@, obj_view(s[i].1)),
    decreases s.len(),
{
    if s.len() > 0 {
        lemma_entries_view(s.subrange(0, s.len() - 1));
    }
}

pub broadcast group group_views {
    lemma_objs_view,
    lemma_entries_view,
}

impl View for PdfObject {
    type V = Obj;

    open spec fn view(&self) -> Obj {
        obj_view(*self)
    }
}

impl View for PdfDict {
    type V = Entries;

    open spec fn view(&self) -> Entries {
        entries_view(self.entries@)
    }
}

} // verus!
