use pdf_filler::appearance::{generate_appearance_stream, FieldRect, Layout, LayoutRequest, PdfNumber};
use pdf_filler::collect::{collect_field_ids, collect_page_annotation_ids};
use pdf_filler::document::PdfDocument;
use pdf_filler::fields::{get_field_name, get_field_type, resolve_dict, resolve_object};
use pdf_filler::fill::{fill_pdf, set_field_value, set_need_appearances};
use pdf_filler::names::list_field_names;
use pdf_filler::object::{ObjectId, PdfDict, PdfObject, StringFormat};
use pdf_filler::strip::strip_unfilled_dropdowns;

struct TestPdfIds {
    acroform_id: ObjectId,
    name_field_id: ObjectId,
    agree_field_id: ObjectId,
    state_field_id: ObjectId,
    account_number_id: ObjectId,
    orphan_field_id: ObjectId,
}

fn dict(entries: Vec<(&str, PdfObject)>) -> PdfDict {
    let mut d = PdfDict::new();
    for (k, v) in entries {
        d.set_str(k, v);
    }
    d
}

fn name(s: &str) -> PdfObject {
    PdfObject::Name(s.as_bytes().to_vec())
}

fn lit(s: &str) -> PdfObject {
    PdfObject::Str(s.as_bytes().to_vec(), StringFormat::Literal)
}

fn real_num(x: f32) -> PdfObject {
    PdfObject::Real(x.to_bits())
}

fn rect(x1: f32, y1: f32, x2: f32, y2: f32) -> PdfObject {
    PdfObject::Array(vec![real_num(x1), real_num(y1), real_num(x2), real_num(y2)])
}

/// Builds a small in-memory PDF with a text field, a button, a choice field with
/// defaults, a hierarchical field and an orphan widget.
fn create_test_pdf() -> (PdfDocument, TestPdfIds) {
    let mut doc = PdfDocument::new();

    let helv_font_id = doc.add_object(PdfObject::Dictionary(dict(vec![
        ("Type", name("Font")),
        ("Subtype", name("Type1")),
        ("BaseFont", name("Helvetica")),
    ])));

    let name_field_id = doc.add_object(PdfObject::Dictionary(dict(vec![
        ("Type", name("Annot")),
        ("Subtype", name("Widget")),
        ("FT", name("Tx")),
        ("T", lit("Name")),
        ("DA", lit("/Helv 12 Tf 0 g")),
        ("Rect", rect(50.0, 700.0, 250.0, 720.0)),
    ])));

    let agree_field_id = doc.add_object(PdfObject::Dictionary(dict(vec![
        ("Type", name("Annot")),
        ("Subtype", name("Widget")),
        ("FT", name("Btn")),
        ("T", lit("Agree")),
    ])));

    let state_field_id = doc.add_object(PdfObject::Dictionary(dict(vec![
        ("Type", name("Annot")),
        ("Subtype", name("Widget")),
        ("FT", name("Ch")),
        ("T", lit("State")),
        ("DV", lit("CA")),
        ("V", lit("CA")),
        ("DA", lit("/Helv 10 Tf 0 g")),
        ("Rect", rect(50.0, 650.0, 200.0, 670.0)),
    ])));

    let account_parent_id = doc.add_object(PdfObject::Dictionary(dict(vec![("T", lit("Account"))])));

    let account_number_id = doc.add_object(PdfObject::Dictionary(dict(vec![
        ("Type", name("Annot")),
        ("Subtype", name("Widget")),
        ("FT", name("Tx")),
        ("T", lit("Number")),
        ("Parent", PdfObject::Reference(account_parent_id)),
        ("DA", lit("/Helv 12 Tf 0 g")),
        ("Rect", rect(50.0, 600.0, 250.0, 620.0)),
    ])));

    doc.set_object(
        account_parent_id,
        PdfObject::Dictionary(dict(vec![
            ("T", lit("Account")),
            ("Kids", PdfObject::Array(vec![PdfObject::Reference(account_number_id)])),
        ])),
    );

    let orphan_field_id = doc.add_object(PdfObject::Dictionary(dict(vec![
        ("Type", name("Annot")),
        ("Subtype", name("Widget")),
        ("FT", name("Tx")),
        ("T", lit("OrphanField")),
        ("DA", lit("/Helv 12 Tf 0 g")),
        ("Rect", rect(50.0, 550.0, 250.0, 570.0)),
    ])));

    let pages_id = doc.new_object_id();

    let page_id = doc.add_object(PdfObject::Dictionary(dict(vec![
        ("Type", name("Page")),
        ("Parent", PdfObject::Reference(pages_id)),
        (
            "Annots",
            PdfObject::Array(vec![
                PdfObject::Reference(name_field_id),
                PdfObject::Reference(agree_field_id),
                PdfObject::Reference(state_field_id),
                PdfObject::Reference(orphan_field_id),
            ]),
        ),
    ])));

    doc.set_object(
        pages_id,
        PdfObject::Dictionary(dict(vec![
            ("Type", name("Pages")),
            ("Count", PdfObject::Integer(1)),
            ("Kids", PdfObject::Array(vec![PdfObject::Reference(page_id)])),
        ])),
    );

    let font_dict = dict(vec![("Helv", PdfObject::Reference(helv_font_id))]);
    let dr_dict = dict(vec![("Font", PdfObject::Dictionary(font_dict))]);
    let acroform_id = doc.add_object(PdfObject::Dictionary(dict(vec![
        (
            "Fields",
            PdfObject::Array(vec![
                PdfObject::Reference(name_field_id),
                PdfObject::Reference(agree_field_id),
                PdfObject::Reference(state_field_id),
                PdfObject::Reference(account_parent_id),
            ]),
        ),
        ("DA", lit("/Helv 12 Tf 0 g")),
        ("DR", PdfObject::Dictionary(dr_dict)),
    ])));

    let catalog_id = doc.add_object(PdfObject::Dictionary(dict(vec![
        ("Type", name("Catalog")),
        ("Pages", PdfObject::Reference(pages_id)),
        ("AcroForm", PdfObject::Reference(acroform_id)),
    ])));

    doc.trailer.set_str("Root", PdfObject::Reference(catalog_id));
    doc.pages = vec![page_id];

    let ids = TestPdfIds {
        acroform_id,
        name_field_id,
        agree_field_id,
        state_field_id,
        account_number_id,
        orphan_field_id,
    };
    (doc, ids)
}

fn number(n: PdfNumber) -> f64 {
    match n {
        PdfNumber::Integer(i) => i as f64,
        PdfNumber::Real(bits) => f32::from_bits(bits) as f64,
    }
}

/// Lays out a text appearance as a viewer-independent average-glyph estimate.
fn test_layout(req: LayoutRequest) -> Layout {
    let FieldRect { x1, y1, x2, y2 } = req.rect;
    let width = (number(x2) - number(x1)).abs();
    let height = (number(y2) - number(y1)).abs();
    let font_size = req
        .font_size
        .and_then(|t| t.parse::<f64>().ok())
        .unwrap_or(12.0);
    let size = if font_size <= 0.0 { 12.0 } else { font_size };
    let pad = 2.0;
    let leading = size * 1.15;
    let avail = (width - 2.0 * pad).max(1.0);
    let char_width = (0.5 * size).max(1.0);
    let centered = (height - size) / 2.0;
    Layout {
        font_size: format!("{size:.2}"),
        bbox_width: (width as f32).to_bits(),
        bbox_height: (height as f32).to_bits(),
        leading: format!("{leading:.2}"),
        first_baseline: format!("{:.2}", (height - pad - size).max(0.0)),
        baseline: format!("{:.2}", if centered < 0.0 { pad } else { centered }),
        max_chars: ((avail / char_width).floor() as usize).max(1),
        max_lines: (((height - pad) / leading).floor() as usize).max(1),
    }
}

fn size_text(token: Option<String>) -> String {
    let size = token.and_then(|t| t.parse::<f64>().ok()).unwrap_or(0.0);
    format!("{size:.2}")
}

fn data(pairs: &[(&str, &str)]) -> Vec<(String, String)> {
    pairs.iter().map(|(k, v)| (k.to_string(), v.to_string())).collect()
}

fn fill(doc: &mut PdfDocument, pairs: &[(&str, &str)]) -> Vec<String> {
    fill_pdf(doc, &data(pairs), &test_layout, &size_text)
}

fn entry<'a>(doc: &'a PdfDocument, id: ObjectId, key: &str) -> Option<&'a PdfObject> {
    doc.get_object(id).unwrap().as_dict().unwrap().get(key.as_bytes())
}

// ─── resolve_object / resolve_dict ───

#[test]
fn resolve_object_direct() {
    let doc = PdfDocument::new();
    let obj = PdfObject::Integer(99);
    assert_eq!(*resolve_object(&doc, &obj), PdfObject::Integer(99));
}

#[test]
fn resolve_object_reference() {
    let mut doc = PdfDocument::new();
    let id = doc.add_object(PdfObject::Integer(42));
    let ref_obj = PdfObject::Reference(id);
    assert_eq!(*resolve_object(&doc, &ref_obj), PdfObject::Integer(42));
}

#[test]
fn resolve_dict_direct_dictionary() {
    let doc = PdfDocument::new();
    let obj = PdfObject::Dictionary(dict(vec![("Key", PdfObject::Boolean(true))]));
    let result = resolve_dict(&doc, &obj);
    assert!(result.is_some());
    assert_eq!(result.unwrap().get(b"Key").unwrap(), &PdfObject::Boolean(true));
}

#[test]
fn resolve_dict_reference_to_dict() {
    let mut doc = PdfDocument::new();
    let id = doc.add_object(PdfObject::Dictionary(dict(vec![("Foo", PdfObject::Integer(7))])));
    let ref_obj = PdfObject::Reference(id);
    let result = resolve_dict(&doc, &ref_obj);
    assert!(result.is_some());
    assert_eq!(result.unwrap().get(b"Foo").unwrap(), &PdfObject::Integer(7));
}

#[test]
fn resolve_dict_non_dict() {
    let doc = PdfDocument::new();
    let obj = PdfObject::Integer(5);
    assert!(resolve_dict(&doc, &obj).is_none());
}

// ─── get_field_name / get_field_type ───

#[test]
fn get_field_name_simple() {
    let (doc, ids) = create_test_pdf();
    assert_eq!(get_field_name(&doc, ids.name_field_id), Some("Name".to_string()));
}

#[test]
fn get_field_name_hierarchical() {
    let (doc, ids) = create_test_pdf();
    assert_eq!(
        get_field_name(&doc, ids.account_number_id),
        Some("Account.Number".to_string())
    );
}

#[test]
fn get_field_name_no_t_key() {
    let mut doc = PdfDocument::new();
    let id = doc.add_object(PdfObject::Dictionary(dict(vec![("FT", name("Tx"))])));
    assert_eq!(get_field_name(&doc, id), None);
}

#[test]
fn get_field_type_direct() {
    let (doc, ids) = create_test_pdf();
    assert_eq!(get_field_type(&doc, ids.name_field_id), Some("Tx".to_string()));
    assert_eq!(get_field_type(&doc, ids.agree_field_id), Some("Btn".to_string()));
    assert_eq!(get_field_type(&doc, ids.state_field_id), Some("Ch".to_string()));
}

#[test]
fn get_field_type_inherited() {
    let mut doc = PdfDocument::new();
    let parent_id = doc.add_object(PdfObject::Dictionary(dict(vec![
        ("FT", name("Tx")),
        ("T", lit("Parent")),
    ])));
    let child_id = doc.add_object(PdfObject::Dictionary(dict(vec![
        ("T", lit("Child")),
        ("Parent", PdfObject::Reference(parent_id)),
    ])));
    assert_eq!(get_field_type(&doc, child_id), Some("Tx".to_string()));
}

#[test]
fn get_field_type_none() {
    let mut doc = PdfDocument::new();
    let id = doc.add_object(PdfObject::Dictionary(dict(vec![("T", lit("NoType"))])));
    assert_eq!(get_field_type(&doc, id), None);
}

// ─── set_field_value / set_need_appearances ───

#[test]
fn set_field_value_text() {
    let (mut doc, ids) = create_test_pdf();
    set_field_value(&mut doc, ids.name_field_id, "Name", "Alice");
    assert_eq!(entry(&doc, ids.name_field_id, "V"), Some(&lit("Alice")));
}

#[test]
fn set_field_value_button() {
    let (mut doc, ids) = create_test_pdf();
    set_field_value(&mut doc, ids.agree_field_id, "Agree", "Yes");
    assert_eq!(entry(&doc, ids.agree_field_id, "V"), Some(&name("Yes")));
    assert_eq!(entry(&doc, ids.agree_field_id, "AS"), Some(&name("Yes")));
}

#[test]
fn set_field_value_choice() {
    let (mut doc, ids) = create_test_pdf();
    set_field_value(&mut doc, ids.state_field_id, "State", "NY");
    assert_eq!(entry(&doc, ids.state_field_id, "V"), Some(&lit("NY")));
}

#[test]
fn set_need_appearances_sets_flag() {
    let (mut doc, ids) = create_test_pdf();
    set_need_appearances(&mut doc);
    assert_eq!(
        entry(&doc, ids.acroform_id, "NeedAppearances"),
        Some(&PdfObject::Boolean(true))
    );
}

// ─── collecting ids ───

#[test]
fn collect_field_ids_finds_all() {
    let (doc, _ids) = create_test_pdf();
    assert_eq!(collect_field_ids(&doc).len(), 5);
}

#[test]
fn collect_page_annotation_ids_finds_annots() {
    let (doc, _ids) = create_test_pdf();
    assert_eq!(collect_page_annotation_ids(&doc).len(), 4);
}

// ─── fill_pdf ───

#[test]
fn fill_pdf_fills_matching() {
    let (mut doc, ids) = create_test_pdf();
    let filled = fill(
        &mut doc,
        &[("Name", "Alice"), ("Agree", "Yes"), ("Account.Number", "99999")],
    );
    assert!(filled.contains(&"Name".to_string()));
    assert!(filled.contains(&"Agree".to_string()));
    assert!(filled.contains(&"Account.Number".to_string()));
    assert_eq!(entry(&doc, ids.name_field_id, "V"), Some(&lit("Alice")));
}

#[test]
fn fill_pdf_fills_orphan() {
    let (mut doc, ids) = create_test_pdf();
    let filled = fill(&mut doc, &[("OrphanField", "orphan_value")]);
    assert!(filled.contains(&"OrphanField".to_string()));
    assert_eq!(entry(&doc, ids.orphan_field_id, "V"), Some(&lit("orphan_value")));
}

#[test]
fn fill_pdf_skips_empty() {
    let (mut doc, ids) = create_test_pdf();
    let filled = fill(&mut doc, &[("Name", "")]);
    assert!(!filled.contains(&"Name".to_string()));
    assert!(entry(&doc, ids.name_field_id, "V").is_none());
}

#[test]
fn list_field_names_sorted_deduped() {
    let (doc, _ids) = create_test_pdf();
    assert_eq!(
        list_field_names(&doc),
        vec!["Account", "Account.Number", "Agree", "Name", "OrphanField", "State"]
    );
}

// ─── generate_appearance_stream ───

#[test]
fn generate_appearance_stream_sets_ap() {
    let (mut doc, ids) = create_test_pdf();
    generate_appearance_stream(&mut doc, ids.name_field_id, "John", &test_layout);
    let ap = entry(&doc, ids.name_field_id, "AP").unwrap().as_dict().unwrap();
    let n_ref = ap.get(b"N").unwrap().as_reference().unwrap();
    assert!(matches!(doc.get_object(n_ref).unwrap(), PdfObject::Stream(_)));
}

#[test]
fn generate_appearance_stream_skips_no_rect() {
    let mut doc = PdfDocument::new();
    let field_id = doc.add_object(PdfObject::Dictionary(dict(vec![
        ("FT", name("Tx")),
        ("T", lit("NoRect")),
        ("DA", lit("/Helv 12 Tf 0 g")),
    ])));
    generate_appearance_stream(&mut doc, field_id, "test", &test_layout);
    assert!(entry(&doc, field_id, "AP").is_none());
}

#[test]
fn fill_pdf_generates_appearances() {
    let (mut doc, ids) = create_test_pdf();
    fill(&mut doc, &[("Name", "Alice"), ("State", "NY")]);
    assert!(entry(&doc, ids.name_field_id, "AP").is_some(), "Name field should have /AP");
    assert!(entry(&doc, ids.state_field_id, "AP").is_some(), "State field should have /AP");
}

#[test]
fn fill_pdf_skips_ap_for_buttons() {
    let (mut doc, ids) = create_test_pdf();
    fill(&mut doc, &[("Agree", "Yes")]);
    assert!(
        entry(&doc, ids.agree_field_id, "AP").is_none(),
        "Button field should not have generated /AP"
    );
}

#[test]
fn fill_pdf_keeps_need_appearances() {
    let (mut doc, ids) = create_test_pdf();
    fill(&mut doc, &[("Name", "Test")]);
    assert_eq!(
        entry(&doc, ids.acroform_id, "NeedAppearances"),
        Some(&PdfObject::Boolean(true))
    );
}

// ─── strip_unfilled_dropdowns ───

#[test]
fn strip_removes_dv_v_from_unfilled_choice() {
    let (mut doc, ids) = create_test_pdf();
    strip_unfilled_dropdowns(&mut doc, &[]);
    assert!(entry(&doc, ids.state_field_id, "DV").is_none(), "DV should be removed");
    assert!(entry(&doc, ids.state_field_id, "V").is_none(), "V should be removed");
}

#[test]
fn strip_preserves_filled_choice() {
    let (mut doc, ids) = create_test_pdf();
    strip_unfilled_dropdowns(&mut doc, &["State".to_string()]);
    assert!(entry(&doc, ids.state_field_id, "DV").is_some(), "DV should be preserved");
    assert!(entry(&doc, ids.state_field_id, "V").is_some(), "V should be preserved");
}

#[test]
fn strip_does_not_touch_non_choice() {
    let (mut doc, ids) = create_test_pdf();
    set_field_value(&mut doc, ids.name_field_id, "Name", "Alice");
    strip_unfilled_dropdowns(&mut doc, &[]);
    assert_eq!(entry(&doc, ids.name_field_id, "V"), Some(&lit("Alice")));
}

// ─── the whole run: fill, then strip ───

#[test]
fn e2e_fills_pdf_successfully() {
    let (mut doc, _ids) = create_test_pdf();
    let filled = fill(
        &mut doc,
        &[("Name", "Jane Doe"), ("Agree", "Yes"), ("State", "NY"), ("Account.Number", "12345")],
    );
    strip_unfilled_dropdowns(&mut doc, &filled);
    assert_eq!(filled.len(), 4);
    assert!(doc.catalog().is_ok(), "output PDF should have a valid catalog");
}

#[test]
fn e2e_filled_fields_have_appearance_streams() {
    let (mut doc, ids) = create_test_pdf();
    let filled = fill(
        &mut doc,
        &[("Name", "Jane Doe"), ("State", "NY"), ("Account.Number", "12345")],
    );
    strip_unfilled_dropdowns(&mut doc, &filled);
    let ap = entry(&doc, ids.name_field_id, "AP").expect("Name field should have /AP");
    let n = ap.as_dict().expect("/AP should be a dict").get(b"N").expect("/AP should have /N entry");
    let n_id = n.as_reference().expect("/AP /N should be a reference");
    let stream_obj = doc.get_object(n_id).expect("AP stream object should exist");
    assert!(matches!(stream_obj, PdfObject::Stream(_)), "/AP /N should reference a stream");
}

#[test]
fn e2e_strips_unfilled_dropdown() {
    let (mut doc, ids) = create_test_pdf();
    let filled = fill(&mut doc, &[("Name", "Alice")]);
    strip_unfilled_dropdowns(&mut doc, &filled);
    assert!(entry(&doc, ids.state_field_id, "DV").is_none(), "State DV should be stripped");
    assert!(entry(&doc, ids.state_field_id, "V").is_none(), "State V should be stripped");
}

// ─── further cases ───

use pdf_filler::appearance::get_field_rect;
use pdf_filler::document::PdfError;
use pdf_filler::fields::{get_da_string, get_field_flags};
use pdf_filler::fill::lookup;
use pdf_filler::ready::{ready_to_fill, walkable, well_formed};
use pdf_filler::text::pdf_string_to_rust;

fn ap_stream<'a>(doc: &'a PdfDocument, id: ObjectId) -> &'a pdf_filler::object::PdfStream {
    let ap = entry(doc, id, "AP").unwrap().as_dict().unwrap();
    let n = ap.get(b"N").unwrap().as_reference().unwrap();
    match doc.get_object(n).unwrap() {
        PdfObject::Stream(s) => s,
        _ => panic!("not a stream"),
    }
}

#[test]
fn set_field_value_reads_back_non_ascii() {
    let (mut doc, ids) = create_test_pdf();
    set_field_value(&mut doc, ids.name_field_id, "Name", "José");
    let v = entry(&doc, ids.name_field_id, "V").unwrap();
    assert_eq!(pdf_string_to_rust(v), Ok("José".to_string()));
    set_field_value(&mut doc, ids.agree_field_id, "Agree", "Off");
    assert_eq!(pdf_string_to_rust(entry(&doc, ids.agree_field_id, "V").unwrap()), Ok("Off".to_string()));
}

#[test]
fn fill_pdf_reports_each_name_once() {
    let (mut doc, ids) = create_test_pdf();
    let filled = fill(&mut doc, &[("Name", "Alice"), ("Nowhere", "x"), ("State", "NY"), ("Agree", "")]);
    assert_eq!(filled, vec!["Name".to_string(), "State".to_string()]);
    assert_eq!(entry(&doc, ids.state_field_id, "V"), Some(&lit("NY")));
    assert!(entry(&doc, ids.agree_field_id, "V").is_none());
}

#[test]
fn fill_pdf_first_pair_counts() {
    let (mut doc, ids) = create_test_pdf();
    fill(&mut doc, &[("Name", "First"), ("Name", "Second")]);
    assert_eq!(entry(&doc, ids.name_field_id, "V"), Some(&lit("First")));
    let d = data(&[("A", "1"), ("A", "2")]);
    assert_eq!(lookup(&d, "A"), Some(&"1".to_string()));
    assert_eq!(lookup(&d, "B"), None);
}

#[test]
fn fill_pdf_button_value_and_state() {
    let (mut doc, ids) = create_test_pdf();
    let filled = fill(&mut doc, &[("Agree", "Yes")]);
    assert_eq!(filled, vec!["Agree".to_string()]);
    assert_eq!(entry(&doc, ids.agree_field_id, "V"), Some(&name("Yes")));
    assert_eq!(entry(&doc, ids.agree_field_id, "AS"), Some(&name("Yes")));
}

#[test]
fn fill_pdf_rewrites_text_da_to_helvetica() {
    let (mut doc, ids) = create_test_pdf();
    fill(&mut doc, &[]);
    assert_eq!(entry(&doc, ids.name_field_id, "DA"), Some(&lit("/Helv 12.00 Tf 0 g")));
    assert_eq!(entry(&doc, ids.state_field_id, "DA"), Some(&lit("/Helv 10.00 Tf 0 g")));
    assert_eq!(
        entry(&doc, ids.acroform_id, "NeedAppearances"),
        Some(&PdfObject::Boolean(true))
    );
}

#[test]
fn fill_pdf_rewrites_arialmt_button_da_only() {
    let (mut doc, ids) = create_test_pdf();
    doc.set_in_object(ids.agree_field_id, b"DA".to_vec(), lit("/ArialMT 9 Tf 0 g"));
    fill(&mut doc, &[]);
    assert_eq!(entry(&doc, ids.agree_field_id, "DA"), Some(&lit("/Helv 9.00 Tf 0 g")));

    let (mut doc, ids) = create_test_pdf();
    doc.set_in_object(ids.agree_field_id, b"DA".to_vec(), lit("/ZaDb 0 Tf 0 g"));
    fill(&mut doc, &[]);
    assert_eq!(entry(&doc, ids.agree_field_id, "DA"), Some(&lit("/ZaDb 0 Tf 0 g")));
}

#[test]
fn fill_pdf_without_size_writes_zero() {
    let (mut doc, ids) = create_test_pdf();
    doc.set_in_object(ids.name_field_id, b"DA".to_vec(), lit("0 g"));
    fill(&mut doc, &[]);
    assert_eq!(entry(&doc, ids.name_field_id, "DA"), Some(&lit("/Helv 0.00 Tf 0 g")));
}

#[test]
fn generate_appearance_stream_single_line_content() {
    let (mut doc, ids) = create_test_pdf();
    let l = generate_appearance_stream(&mut doc, ids.name_field_id, "J(o)hn", &test_layout);
    assert!(l.is_some());
    let s = ap_stream(&doc, ids.name_field_id);
    assert_eq!(
        String::from_utf8(s.content.clone()).unwrap(),
        "/Tx BMC\nBT\n/Helv 12.00 Tf 0 g\n2.00 4.00 Td\n(J\\(o\\)hn) Tj\nET\nEMC"
    );
    assert_eq!(s.dict.get(b"Length"), Some(&PdfObject::Integer(s.content.len() as i64)));
    assert_eq!(
        s.dict.get(b"BBox"),
        Some(&PdfObject::Array(vec![real_num(0.0), real_num(0.0), real_num(200.0), real_num(20.0)]))
    );
    assert_eq!(entry(&doc, ids.name_field_id, "DA"), Some(&lit("/Helv 12.00 Tf 0 g")));
}

#[test]
fn generate_appearance_stream_multiline_content() {
    let mut doc = PdfDocument::new();
    let id = doc.add_object(PdfObject::Dictionary(dict(vec![
        ("FT", name("Tx")),
        ("T", lit("Notes")),
        ("Ff", PdfObject::Integer(4096)),
        ("DA", lit("/Helv 10 Tf 0 g")),
        ("Rect", PdfObject::Array(vec![
            PdfObject::Integer(0),
            PdfObject::Integer(0),
            PdfObject::Integer(64),
            PdfObject::Integer(40),
        ])),
    ])));
    generate_appearance_stream(&mut doc, id, "aaa bbb ccc ddd eee", &test_layout);
    let s = ap_stream(&doc, id);
    assert_eq!(
        String::from_utf8(s.content.clone()).unwrap(),
        "/Tx BMC\nBT\n/Helv 10.00 Tf 0 g\n11.50 TL\n2.00 28.00 Td\n(aaa bbb ccc) Tj\nT*\n(ddd eee) Tj\nET\nEMC"
    );
}

#[test]
fn generate_appearance_stream_newline_is_multiline() {
    let (mut doc, ids) = create_test_pdf();
    generate_appearance_stream(&mut doc, ids.name_field_id, "a\nb", &test_layout);
    let s = ap_stream(&doc, ids.name_field_id);
    assert_eq!(
        String::from_utf8(s.content.clone()).unwrap(),
        "/Tx BMC\nBT\n/Helv 12.00 Tf 0 g\n13.80 TL\n2.00 6.00 Td\n(a) Tj\nET\nEMC"
    );
}

#[test]
fn generate_appearance_stream_without_da_does_nothing() {
    let mut doc = PdfDocument::new();
    let id = doc.add_object(PdfObject::Dictionary(dict(vec![
        ("FT", name("Tx")),
        ("Rect", rect(0.0, 0.0, 10.0, 10.0)),
    ])));
    let before = doc.objects.len();
    assert!(generate_appearance_stream(&mut doc, id, "x", &test_layout).is_none());
    assert_eq!(doc.objects.len(), before);
}

#[test]
fn da_string_falls_back_to_acroform() {
    let (mut doc, ids) = create_test_pdf();
    doc.remove_in_object(ids.name_field_id, b"DA");
    assert_eq!(get_da_string(&doc, ids.name_field_id), Some("/Helv 12 Tf 0 g".to_string()));
    assert_eq!(get_da_string(&doc, ids.state_field_id), Some("/Helv 10 Tf 0 g".to_string()));
}

#[test]
fn field_flags_are_inherited() {
    let mut doc = PdfDocument::new();
    let parent = doc.add_object(PdfObject::Dictionary(dict(vec![("Ff", PdfObject::Integer(4096))])));
    let child = doc.add_object(PdfObject::Dictionary(dict(vec![("Parent", PdfObject::Reference(parent))])));
    assert_eq!(get_field_flags(&doc, child), 4096);
    let lone = doc.add_object(PdfObject::Dictionary(dict(vec![])));
    assert_eq!(get_field_flags(&doc, lone), 0);
}

#[test]
fn field_rect_needs_four_numbers() {
    let (doc, ids) = create_test_pdf();
    let r = get_field_rect(&doc, ids.name_field_id).unwrap();
    assert_eq!(r.x2, PdfNumber::Real(250.0f32.to_bits()));
    let mut doc = PdfDocument::new();
    let id = doc.add_object(PdfObject::Dictionary(dict(vec![(
        "Rect",
        PdfObject::Array(vec![PdfObject::Integer(0), PdfObject::Integer(0), name("x"), PdfObject::Integer(1)]),
    )])));
    assert!(get_field_rect(&doc, id).is_none());
}

#[test]
fn field_type_not_utf8_is_none() {
    let mut doc = PdfDocument::new();
    let id = doc.add_object(PdfObject::Dictionary(dict(vec![("FT", PdfObject::Name(vec![0xFF]))])));
    assert_eq!(get_field_type(&doc, id), None);
}

#[test]
fn lookup_errors() {
    let mut doc = PdfDocument::new();
    assert_eq!(doc.get_object((7, 0)), Err(PdfError::ObjectNotFound((7, 0))));
    let a = doc.new_object_id();
    let b = doc.new_object_id();
    doc.set_object(a, PdfObject::Reference(b));
    doc.set_object(b, PdfObject::Reference(a));
    assert_eq!(doc.get_object(a), Err(PdfError::ReferenceLimit));
    assert_eq!(doc.catalog().err(), Some(PdfError::DictKey));
    doc.trailer.set_str("Root", PdfObject::Integer(1));
    assert_eq!(doc.catalog().err(), Some(PdfError::ObjectType));
    let c = doc.add_object(PdfObject::Reference(b));
    doc.set_object(b, PdfObject::Integer(3));
    assert_eq!(doc.get_object(c), Ok(&PdfObject::Integer(3)));
}

#[test]
fn strip_keeps_other_fields() {
    let (mut doc, ids) = create_test_pdf();
    let before_name = format!("{:?}", doc.get_object(ids.name_field_id).unwrap());
    strip_unfilled_dropdowns(&mut doc, &["Other".to_string()]);
    assert_eq!(format!("{:?}", doc.get_object(ids.name_field_id).unwrap()), before_name);
    assert!(entry(&doc, ids.state_field_id, "V").is_none());
}

#[test]
fn ready_checks() {
    let (doc, _ids) = create_test_pdf();
    assert!(walkable(&doc, 20));
    assert!(well_formed(&doc));
    assert!(ready_to_fill(&doc, 20));
    assert!(!walkable(&doc, 1));

    let mut cyclic = PdfDocument::new();
    let a = cyclic.new_object_id();
    let b = cyclic.add_object(PdfObject::Dictionary(dict(vec![("T", lit("B")), ("Parent", PdfObject::Reference(a))])));
    cyclic.set_object(a, PdfObject::Dictionary(dict(vec![("T", lit("A")), ("Parent", PdfObject::Reference(b))])));
    let form = cyclic.add_object(PdfObject::Dictionary(dict(vec![(
        "Fields",
        PdfObject::Array(vec![PdfObject::Reference(a)]),
    )])));
    let cat = cyclic.add_object(PdfObject::Dictionary(dict(vec![("AcroForm", PdfObject::Reference(form))])));
    cyclic.trailer.set_str("Root", PdfObject::Reference(cat));
    assert!(!walkable(&cyclic, 100));

    let mut dup = PdfDocument::new();
    dup.add_object(PdfObject::Dictionary(PdfDict {
        entries: vec![(b"K".to_vec(), PdfObject::Null), (b"K".to_vec(), PdfObject::Null)],
    }));
    assert!(!well_formed(&dup));
    let mut high = PdfDocument::new();
    high.set_object((5, 0), PdfObject::Null);
    assert!(!well_formed(&high));
}

#[test]
fn fill_pdf_keeps_prepared_button_appearance() {
    let (mut doc, ids) = create_test_pdf();
    let prepared = dict(vec![("N", PdfObject::Dictionary(dict(vec![("Yes", PdfObject::Null)])))]);
    doc.set_in_object(ids.agree_field_id, b"AP".to_vec(), PdfObject::Dictionary(prepared));
    let before = format!("{:?}", entry(&doc, ids.agree_field_id, "AP"));
    fill(&mut doc, &[("Agree", "Yes")]);
    assert_eq!(format!("{:?}", entry(&doc, ids.agree_field_id, "AP")), before);
}

#[test]
fn fill_and_strip_keep_listed_names() {
    let (mut doc, _ids) = create_test_pdf();
    let before = list_field_names(&doc);
    let filled = fill(&mut doc, &[("Name", "Alice"), ("Account.Number", "1")]);
    strip_unfilled_dropdowns(&mut doc, &filled);
    assert_eq!(list_field_names(&doc), before);
}

#[test]
fn fill_pdf_orphan_and_hierarchy_get_appearances() {
    let (mut doc, ids) = create_test_pdf();
    fill(&mut doc, &[("OrphanField", "o"), ("Account.Number", "42")]);
    assert!(matches!(ap_stream(&doc, ids.orphan_field_id).content.len(), n if n > 0));
    assert!(matches!(ap_stream(&doc, ids.account_number_id).content.len(), n if n > 0));
    assert_eq!(entry(&doc, ids.account_number_id, "V"), Some(&lit("42")));
}

#[test]
fn e2e_null_values_skipped() {
    let (mut doc, _ids) = create_test_pdf();
    let data = pdf_filler::json::parse_data(
        r#"{
        "Name": "Jane Doe",
        "Agree": null,
        "State": null
    }"#,
    )
    .unwrap();
    let filled = fill_pdf(&mut doc, &data, &test_layout, &size_text);
    assert_eq!(filled.len(), 1, "should fill exactly 1 field");
}
