use vstd::prelude::*;
use vstd::string::StringSliceAdditionalSpecFns;
use vstd::utf8::{decode_utf8, encode_utf8, is_ascii_chars, valid_utf8};
use crate::object::{Obj, PdfObject, StringFormat};

verus! {

broadcast use vstd::seq::group_seq_axioms;

// ---------------------------------------------------------------------------
// Calls into std whose behaviour vstd does not give.
// ---------------------------------------------------------------------------

/// What `String::from_utf8_lossy` makes of bytes that are not valid UTF-8.
pub uninterp spec fn lossy_utf8(b: Seq<u8>) -> Seq<char>;

/// The text that `String::from_utf8_lossy` decodes from `b`: the decoding of `b` where
/// `b` is valid UTF-8, as its documentation states; otherwise `lossy_utf8(b)`.
pub open spec fn utf8_lossy_text(b: Seq<u8>) -> Seq<char> {
    if valid_utf8(b) {
        decode_utf8(b)
    } else {
        lossy_utf8(b)
    }
}

/// Calls `String::from_utf8_lossy`. Claimed: on valid UTF-8 the result is the decoded
/// text (the documentation says so); on other input it is `lossy_utf8(b)`, a value fixed by
/// the bytes alone (replacement characters stand for the invalid sequences, which is not
/// stated here).
#[verifier::external_body]
pub(crate) fn string_from_utf8_lossy(b: &[u8]) -> (s: String)
    ensures
        valid_utf8(b@) ==> s@ == decode_utf8(b@),
        !valid_utf8(b@) ==> s@ == lossy_utf8(b@),
{
    String::from_utf8_lossy(b).into_owned()
}

/// Calls `std::str::from_utf8` and copies the text out. Claimed, as documented: `Some`
/// exactly when the bytes are valid UTF-8, holding the text they encode.
#[verifier::external_body]
pub(crate) fn utf8_text(b: &[u8]) -> (r: Option<String>)
    ensures
        r is Some <==> valid_utf8(b@),
        r matches Some(s) ==> s@ == decode_utf8(b@),
{
    std::str::from_utf8(b).ok().map(|s| s.to_string())
}

/// Calls `String::push`. Claimed: the character is appended.
#[verifier::external_body]
pub(crate) fn push_char(s: &mut String, c: char)
    ensures
        final(s)@ == old(s)@.push(c),
{
    s.push(c);
}

/// Calls `char::from_u32`. Claimed, as documented: `Some` exactly for the values that are
/// Unicode scalar values (not a surrogate, at most 0x10FFFF), holding the character
/// with that value.
#[verifier::external_body]
pub(crate) fn char_from_u32(v: u32) -> (r: Option<char>)
    ensures
        r is Some <==> (v <= 0xD7FF || (0xE000 <= v && v <= 0x10FFFF)),
        r matches Some(c) ==> c as u32 == v,
{
    char::from_u32(v)
}

/// The characters that have the Unicode property White_Space.
pub open spec fn spec_is_whitespace(c: char) -> bool {
    let v = c as u32;
    ||| 0x09 <= v <= 0x0D
    ||| v == 0x20
    ||| v == 0x85
    ||| v == 0xA0
    ||| v == 0x1680
    ||| 0x2000 <= v <= 0x200A
    ||| v == 0x2028
    ||| v == 0x2029
    ||| v == 0x202F
    ||| v == 0x205F
    ||| v == 0x3000
}

/// Calls `char::is_whitespace`. Claimed, as documented: true exactly for the characters
/// with the White_Space property, listed in `spec_is_whitespace`.
#[verifier::external_body]
pub(crate) fn is_whitespace(c: char) -> (b: bool)
    ensures
        b == spec_is_whitespace(c),
{
    c.is_whitespace()
}

// ---------------------------------------------------------------------------
// Conversions between strings, characters and bytes.
// ---------------------------------------------------------------------------

/// The characters of `s`, in order.
pub fn chars_of(s: &str) -> (r: Vec<char>)
    ensures
        r@ == s@,
{
    let mut out: Vec<char> = Vec::new();
    for c in it: s.chars()
        invariant
            out@ == it.seq().take(it.index() as int),
            it.seq() == s@,
    {
        out.push(c);
    }
    out
}

/// The string made of the characters `v`.
pub fn string_from_chars(v: &[char]) -> (s: String)
    ensures
        s@ == v@,
{
    let mut s = String::new();
    let mut i: usize = 0;
    while i < v.len()
        invariant
            0 <= i <= v@.len(),
            s@ == v@.take(i as int),
        decreases v@.len() - i,
    {
        push_char(&mut s, v[i]);
        i = i + 1;
        assert(s@ =~= v@.take(i as int));
    }
    assert(v@.take(v@.len() as int) =~= v@);
    s
}

/// The UTF-8 encoding of `v`.
pub fn utf8_bytes(v: &[char]) -> (b: Vec<u8>)
    ensures
        b@ == encode_utf8(v@),
{
    let s = string_from_chars(v);
    vstd::slice::slice_to_vec(s.as_str().as_bytes())
}

/// Appends `b` to `out`.
pub fn push_all<T: Copy>(out: &mut Vec<T>, b: &[T])
    ensures
        final(out)@ == old(out)@ + b@,
{
    let mut i: usize = 0;
    while i < b.len()
        invariant
            0 <= i <= b@.len(),
            out@ == old(out)@ + b@.take(i as int),
        decreases b@.len() - i,
    {
        out.push(b[i]);
        i = i + 1;
        assert(out@ =~= old(out)@ + b@.take(i as int));
    }
    assert(b@.take(b@.len() as int) =~= b@);
}

/// Appends the characters of `s` to `out`.
pub fn push_str_chars(out: &mut Vec<char>, s: &str)
    ensures
        final(out)@ == old(out)@ + s@,
{
    let c = chars_of(s);
    push_all(out, c.as_slice());
}

// ---------------------------------------------------------------------------
// UTF-16.
// ---------------------------------------------------------------------------

/// The UTF-16 code units of one character.
pub open spec fn char_units(c: char) -> Seq<u16> {
    let v = c as u32;
    if v < 0x10000 {
        seq![v as u16]
    } else {
        let w = (v - 0x10000) as u32;
        seq![(0xD800 + w / 1024) as u16, (0xDC00 + w % 1024) as u16]
    }
}

/// The UTF-16 encoding of a text.
pub open spec fn utf16_units(s: Seq<char>) -> Seq<u16>
    decreases s.len(),
{
    if s.len() == 0 {
        Seq::empty()
    } else {
        utf16_units(s.drop_last()) + char_units(s.last())
    }
}

/// The text that UTF-16 code units encode; `None` where a surrogate is unpaired.
pub open spec fn utf16_decode(u: Seq<u16>) -> Option<Seq<char>>
    decreases u.len(),
{
    if u.len() == 0 {
        Some(Seq::empty())
    } else if u[0] < 0xD800 || u[0] > 0xDFFF {
        match utf16_decode(u.drop_first()) {
            Some(r) => Some(seq![(u[0] as u32) as char] + r),
            None => None,
        }
    } else if u[0] <= 0xDBFF && u.len() >= 2 && 0xDC00 <= u[1] <= 0xDFFF {
        let v = (0x10000 + (u[0] - 0xD800) * 1024 + (u[1] - 0xDC00)) as u32;
        match utf16_decode(u.skip(2)) {
            Some(r) => Some(seq![v as char] + r),
            None => None,
        }
    } else {
        None
    }
}

pub proof fn lemma_utf16_units_concat(a: Seq<char>, b: Seq<char>)
    ensures
        utf16_units(a + b) == utf16_units(a) + utf16_units(b),
    decreases b.len(),
{
    if b.len() == 0 {
        assert(a + b =~= a);
        assert(utf16_units(a) + utf16_units(b) =~= utf16_units(a));
    } else {
        lemma_utf16_units_concat(a, b.drop_last());
        assert((a + b).drop_last() =~= a + b.drop_last());
        assert(utf16_units(a + b) =~= utf16_units(a) + utf16_units(b));
    }
}

proof fn lemma_char_units(c: char)
    ensures
        ({
            let u = char_units(c);
            let v = c as u32;
            &&& v < 0x10000 ==> u.len() == 1 && (u[0] < 0xD800 || u[0] > 0xDFFF) && (u[0] as u32) as char == c
            &&& v >= 0x10000 ==> {
                &&& u.len() == 2
                &&& 0xD800 <= u[0] <= 0xDBFF
                &&& 0xDC00 <= u[1] <= 0xDFFF
                &&& ((0x10000 + (u[0] - 0xD800) * 1024 + (u[1] - 0xDC00)) as u32) as char == c
            }
        }),
{
    let v = c as u32;
    vstd::utf8::char_is_scalar(c);
    vstd::utf8::char_u32_cast(c, v);
    if v >= 0x10000 {
        let w = (v - 0x10000) as u32;
        assert(w < 0x100000);
        assert(w / 1024 < 1024 && w % 1024 < 1024 && (w / 1024) * 1024 + w % 1024 == w) by (nonlinear_arith)
            requires
                w < 0x100000,
        ;
    }
}

/// Decoding the UTF-16 encoding of a text gives back the text.
pub proof fn lemma_utf16_roundtrip(s: Seq<char>)
    ensures
        utf16_decode(utf16_units(s)) == Some(s),
    decreases s.len(),
{
    if s.len() > 0 {
        let c = s[0];
        let rest = s.drop_first();
        assert(s =~= seq![c] + rest);
        lemma_utf16_units_concat(seq![c], rest);
        assert(utf16_units(seq![c]) =~= char_units(c)) by {
            assert(seq![c].drop_last() =~= Seq::<char>::empty());
            reveal_with_fuel(utf16_units, 2);
        }
        lemma_utf16_roundtrip(rest);
        lemma_char_units(c);
        let u = char_units(c) + utf16_units(rest);
        if (c as u32) < 0x10000 {
            assert(u.drop_first() =~= utf16_units(rest));
        } else {
            assert(u.skip(2) =~= utf16_units(rest));
        }
        assert(seq![c] + rest =~= s);
    }
}

/// Appends the UTF-16 code units of `c`.
fn push_char_units(out: &mut Vec<u16>, c: char)
    ensures
        final(out)@ == old(out)@ + char_units(c),
{
    let v = c as u32;
    if v < 0x10000 {
        out.push(v as u16);
    } else {
        let w = v - 0x10000;
        out.push((0xD800 + w / 1024) as u16);
        out.push((0xDC00 + w % 1024) as u16);
    }
    assert(out@ =~= old(out)@ + char_units(c));
}

/// The UTF-16 encoding of `s`.
pub fn encode_utf16(s: &[char]) -> (u: Vec<u16>)
    ensures
        u@ == utf16_units(s@),
{
    let mut out: Vec<u16> = Vec::new();
    let mut i: usize = 0;
    while i < s.len()
        invariant
            0 <= i <= s@.len(),
            out@ == utf16_units(s@.take(i as int)),
        decreases s@.len() - i,
    {
        push_char_units(&mut out, s[i]);
        i = i + 1;
        assert(s@.take(i as int).drop_last() =~= s@.take(i - 1));
    }
    assert(s@.take(s@.len() as int) =~= s@);
    out
}

/// Decodes UTF-16 code units; `None` where a surrogate is unpaired.
pub fn decode_utf16(u: &[u16]) -> (r: Option<Vec<char>>)
    ensures
        match r {
            Some(t) => utf16_decode(u@) == Some(t@),
            None => utf16_decode(u@) is None,
        },
{
    let mut out: Vec<char> = Vec::new();
    let mut i: usize = 0;
    assert(u@.skip(0) =~= u@);
    while i < u.len()
        invariant
            0 <= i <= u@.len(),
            utf16_decode(u@) == match utf16_decode(u@.skip(i as int)) {
                Some(r) => Some(out@ + r),
                None => None,
            },
        decreases u@.len() - i,
    {
        let a = u[i];
        let ghost rest = u@.skip(i as int);
        if a < 0xD800 || a > 0xDFFF {
            let c = char_from_u32(a as u32).unwrap();
            proof {
                vstd::utf8::char_u32_cast(c, a as u32);
                assert(rest.drop_first() =~= u@.skip(i + 1));
                match utf16_decode(u@.skip(i + 1)) {
                    Some(r) => {
                        assert(out@ + (seq![c] + r) =~= out@.push(c) + r);
                    },
                    None => {},
                }
            }
            out.push(c);
            i = i + 1;
        } else if a <= 0xDBFF && i + 1 < u.len() && 0xDC00 <= u[i + 1] && u[i + 1] <= 0xDFFF {
            let b = u[i + 1];
            let v: u32 = 0x10000 + (a as u32 - 0xD800) * 1024 + (b as u32 - 0xDC00);
            let c = char_from_u32(v).unwrap();
            proof {
                vstd::utf8::char_u32_cast(c, v);
                assert(rest.skip(2) =~= u@.skip(i + 2));
                match utf16_decode(u@.skip(i + 2)) {
                    Some(r) => {
                        assert(out@ + (seq![c] + r) =~= out@.push(c) + r);
                    },
                    None => {},
                }
            }
            out.push(c);
            i = i + 2;
        } else {
            return None;
        }
    }
    assert(u@.skip(i as int) =~= Seq::<u16>::empty());
    assert(out@ + Seq::<char>::empty() =~= out@);
    Some(out)
}


// ---------------------------------------------------------------------------
// PDF text strings.
// ---------------------------------------------------------------------------

/// Code units written big-endian, two bytes each.
pub open spec fn be_bytes(u: Seq<u16>) -> Seq<u8> {
    Seq::new(
        2 * u.len(),
        |k: int|
            if k % 2 == 0 {
                (u[k / 2] / 256) as u8
            } else {
                (u[k / 2] % 256) as u8
            },
    )
}

/// Bytes read two at a time as big-endian code units; an odd last byte reads as 0.
pub open spec fn pair_units(b: Seq<u8>) -> Seq<u16> {
    Seq::new(
        ((b.len() + 1) / 2) as nat,
        |k: int|
            if 2 * k + 1 < b.len() {
                (b[2 * k] * 256 + b[2 * k + 1]) as u16
            } else {
                0u16
            },
    )
}

/// The byte-order mark that opens a UTF-16 text string.
pub open spec fn utf16_bom() -> Seq<u8> {
    seq![0xFEu8, 0xFFu8]
}

/// How a field value is stored: ASCII text as a literal string of its bytes, any
/// other text as a hexadecimal string of its UTF-16BE encoding after a byte-order mark.
pub open spec fn spec_text_string(v: Seq<char>) -> Obj {
    if is_ascii_chars(v) {
        Obj::Str(encode_utf8(v), StringFormat::Literal)
    } else {
        Obj::Str(utf16_bom() + be_bytes(utf16_units(v)), StringFormat::Hexadecimal)
    }
}

/// The text a string or name object holds: UTF-16BE after a byte-order mark, otherwise
/// UTF-8 with invalid sequences replaced; `None` for other objects and for UTF-16 with
/// an unpaired surrogate.
pub open spec fn spec_string_value(o: Obj) -> Option<Seq<char>> {
    match o {
        Obj::Str(b, _) => if b.len() >= 2 && b[0] == 0xFE && b[1] == 0xFF {
            utf16_decode(pair_units(b.skip(2)))
        } else {
            Some(utf8_lossy_text(b))
        },
        Obj::Name(b) => Some(utf8_lossy_text(b)),
        _ => None,
    }
}

/// Encodes a field value as a PDF text string.
pub fn pdf_text_string(value: &str) -> (o: PdfObject)
    ensures
        o@ == spec_text_string(value@),
{
    if value.is_ascii() {
        let b = vstd::slice::slice_to_vec(value.as_bytes());
        PdfObject::Str(b, StringFormat::Literal)
    } else {
        let chars = chars_of(value);
        let u = encode_utf16(chars.as_slice());
        let mut b: Vec<u8> = Vec::new();
        b.push(0xFE);
        b.push(0xFF);
        let mut i: usize = 0;
        assert(b@ =~= utf16_bom() + be_bytes(u@.take(0)));
        while i < u.len()
            invariant
                0 <= i <= u@.len(),
                b@ == utf16_bom() + be_bytes(u@.take(i as int)),
            decreases u@.len() - i,
        {
            let x = u[i];
            b.push((x / 256) as u8);
            b.push((x % 256) as u8);
            i = i + 1;
            assert(b@ =~= utf16_bom() + be_bytes(u@.take(i as int)));
        }
        assert(u@.take(u@.len() as int) =~= u@);
        PdfObject::Str(b, StringFormat::Hexadecimal)
    }
}

/// The text a string or name object holds.
pub fn pdf_string_to_rust(o: &PdfObject) -> (r: Result<String, ()>)
    ensures
        match r {
            Ok(s) => spec_string_value(o@) == Some(s@),
            Err(_) => spec_string_value(o@) is None,
        },
{
    match o {
        PdfObject::Str(b, _) => {
            if b.len() >= 2 && b[0] == 0xFE && b[1] == 0xFF {
                let n = b.len();
                let p = (n - 1) / 2;
                let mut u: Vec<u16> = Vec::new();
                let mut j: usize = 0;
                let ghost rest = b@.skip(2);
                assert(pair_units(rest).len() == p);
                while j < p
                    invariant
                        n == b@.len(),
                        n >= 2,
                        p == (n - 1) / 2,
                        0 <= j <= p,
                        rest == b@.skip(2),
                        pair_units(rest).len() == p,
                        u@ == pair_units(rest).take(j as int),
                    decreases p - j,
                {
                    let k = 2 + 2 * j;
                    if k + 1 < n {
                        u.push((b[k] as u16) * 256 + b[k + 1] as u16);
                    } else {
                        u.push(0);
                    }
                    j = j + 1;
                    assert(u@ =~= pair_units(rest).take(j as int));
                }
                assert(u@ =~= pair_units(rest));
                match decode_utf16(u.as_slice()) {
                    Some(t) => Ok(string_from_chars(t.as_slice())),
                    None => Err(()),
                }
            } else {
                Ok(string_from_utf8_lossy(b.as_slice()))
            }
        },
        PdfObject::Name(b) => Ok(string_from_utf8_lossy(b.as_slice())),
        _ => Err(()),
    }
}

/// A value stored as a text string reads back as the same text.
pub proof fn lemma_text_string_roundtrip(v: Seq<char>)
    ensures
        spec_string_value(spec_text_string(v)) == Some(v),
{
    if is_ascii_chars(v) {
        let b = encode_utf8(v);
        vstd::utf8::is_ascii_chars_encode_utf8(v);
        vstd::utf8::encode_utf8_valid_utf8(v);
        vstd::utf8::encode_utf8_decode_utf8(v);
        if b.len() >= 2 {
            assert(b[0] == v[0] as u8);
            assert(v[0] <= '\u{7f}');
            assert((v[0] as u32) < 128);
        }
    } else {
        let u = utf16_units(v);
        let b = utf16_bom() + be_bytes(u);
        assert(b.skip(2) =~= be_bytes(u));
        assert forall|k: int| 0 <= k < u.len() implies #[trigger] pair_units(be_bytes(u))[k] == u[k] by {
            let x = u[k];
            assert(be_bytes(u)[2 * k] == (x / 256) as u8);
            assert(be_bytes(u)[2 * k + 1] == (x % 256) as u8);
        }
        assert(pair_units(be_bytes(u)) =~= u);
        lemma_utf16_roundtrip(v);
    }
}

// ---------------------------------------------------------------------------
// Escaping for literal strings in content streams.
// ---------------------------------------------------------------------------

/// A character as it is written inside a literal string.
pub open spec fn escape_char(c: char) -> Seq<char> {
    if c == '\\' {
        seq!['\\', '\\']
    } else if c == '(' {
        seq!['\\', '(']
    } else if c == ')' {
        seq!['\\', ')']
    } else {
        seq![c]
    }
}

/// A text with `\`, `(` and `)` escaped by a backslash.
pub open spec fn escape(s: Seq<char>) -> Seq<char>
    decreases s.len(),
{
    if s.len() == 0 {
        Seq::empty()
    } else {
        escape(s.drop_last()) + escape_char(s.last())
    }
}

/// Appends `s` to `out` with `\`, `(` and `)` escaped.
pub fn push_escaped(out: &mut Vec<char>, s: &[char])
    ensures
        final(out)@ == old(out)@ + escape(s@),
{
    let mut i: usize = 0;
    while i < s.len()
        invariant
            0 <= i <= s@.len(),
            out@ == old(out)@ + escape(s@.take(i as int)),
        decreases s@.len() - i,
    {
        let c = s[i];
        if c == '\\' {
            out.push('\\');
            out.push('\\');
        } else if c == '(' {
            out.push('\\');
            out.push('(');
        } else if c == ')' {
            out.push('\\');
            out.push(')');
        } else {
            out.push(c);
        }
        i = i + 1;
        assert(s@.take(i as int).drop_last() =~= s@.take(i - 1));
        assert(out@ =~= old(out)@ + escape(s@.take(i as int)));
    }
    assert(s@.take(s@.len() as int) =~= s@);
}

/// Escapes `\`, `(` and `)` for a PDF literal string.
pub fn pdf_escape(value: &str) -> (s: String)
    ensures
        s@ == escape(value@),
{
    let chars = chars_of(value);
    let mut out: Vec<char> = Vec::new();
    push_escaped(&mut out, chars.as_slice());
    assert(out@ =~= escape(value@));
    string_from_chars(out.as_slice())
}

} // verus!
