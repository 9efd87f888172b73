//! Loading a PDF with `lopdf` into the library's document model.

use vstd::prelude::*;
use crate::pdf::{dict_value, PdfDict, PdfModel, PdfObject, PdfValue};
use crate::pdfsig::{analyze_model, spec_analyze_model, PdfAnalysisView};
use crate::sign::{PdfAnalysis, SigError, SigErrorView};
use lopdf::Object;

verus! {

#[verifier::external_type_specification]
#[verifier::external_body]
pub struct ExDocument(lopdf::Document);

#[verifier::external_type_specification]
#[verifier::external_body]
pub struct ExObject(lopdf::Object);

/// What the library reads of a loaded document: its numbered objects, in the
/// order of its `objects` map, the entries of its trailer, in order, and the
/// ids of its pages, in page order, as `Document::get_pages` walks the page
/// tree.
pub struct PdfContent {
    pub objects: Seq<(u32, u16, PdfValue)>,
    pub trailer: Seq<(Seq<u8>, PdfValue)>,
    pub pages: Seq<(u32, u16)>,
}

/// The content of a lopdf document.
pub uninterp spec fn doc_content(d: lopdf::Document) -> PdfContent;

/// The value of a lopdf object: a real is kept as the integer that `as i64`
/// makes of it, a stream as `Stream`, a string without its format.
pub uninterp spec fn object_value(o: lopdf::Object) -> PdfValue;

/// How deep arrays and dictionaries nest in a lopdf object: each item of an
/// array, and each value of a dictionary, nests less deep than the object.
pub uninterp spec fn object_depth(o: lopdf::Object) -> nat;

/// The values of lopdf array items.
pub open spec fn items_value(items: Seq<lopdf::Object>) -> Seq<PdfValue> {
    items.map_values(|x: lopdf::Object| object_value(x))
}

/// The entries of a lopdf dictionary, as values.
pub open spec fn entries_value(entries: Seq<(Vec<u8>, lopdf::Object)>) -> Seq<(Seq<u8>, PdfValue)> {
    entries.map_values(|e: (Vec<u8>, lopdf::Object)| (e.0@, object_value(e.1)))
}

/// One level of a lopdf object: its kind and its plain fields, with the
/// elements of arrays and dictionaries left as lopdf objects.
pub enum ObjectView {
    Null,
    Boolean(bool),
    Integer(i64),
    Real(i64),
    Name(Vec<u8>),
    Str(Vec<u8>),
    Array(Vec<lopdf::Object>),
    Dictionary(Vec<(Vec<u8>, lopdf::Object)>),
    Stream,
    Reference(u32, u16),
}

/// The value of the object that `v` shows one level of.
pub open spec fn shown_value(v: ObjectView) -> PdfValue {
    match v {
        ObjectView::Null => PdfValue::Null,
        ObjectView::Boolean(b) => PdfValue::Boolean(b),
        ObjectView::Integer(n) => PdfValue::Integer(n),
        ObjectView::Real(n) => PdfValue::Real(n),
        ObjectView::Name(n) => PdfValue::Name(n@),
        ObjectView::Str(s) => PdfValue::Str(s@),
        ObjectView::Array(items) => PdfValue::Array(items_value(items@)),
        ObjectView::Dictionary(entries) => PdfValue::Dictionary(entries_value(entries@)),
        ObjectView::Stream => PdfValue::Stream,
        ObjectView::Reference(n, g) => PdfValue::Reference(n, g),
    }
}

/// Walks the document's `objects` map (a `BTreeMap`, in key order), each id
/// split into number and generation; the contract says the entries are the
/// objects that `doc_content` names, in that order.
#[verifier::external_body]
pub(crate) fn document_objects(doc: &lopdf::Document) -> (r: Vec<(u32, u16, lopdf::Object)>)
    ensures
        r@.len() == doc_content(*doc).objects.len(),
        forall|i: int|
            0 <= i < r@.len() ==> ((#[trigger] r@[i]).0, r@[i].1, object_value(r@[i].2))
                == doc_content(*doc).objects[i],
{
    doc.objects.iter().map(|(id, o)| (id.0, id.1, o.clone())).collect()
}

/// Walks the document's trailer dictionary (an `IndexMap`, in insertion
/// order); the contract says the entries are those that `doc_content`
/// names.
#[verifier::external_body]
pub(crate) fn document_trailer(doc: &lopdf::Document) -> (r: Vec<(Vec<u8>, lopdf::Object)>)
    ensures
        entries_value(r@) == doc_content(*doc).trailer,
{
    doc.trailer.iter().map(|(k, v)| (k.clone(), v.clone())).collect()
}

/// Calls `Document::get_pages` and counts the pages it finds.
#[verifier::external_body]
pub(crate) fn document_page_count(doc: &lopdf::Document) -> (r: usize)
    ensures
        r == doc_content(*doc).pages.len(),
{
    doc.get_pages().len()
}

/// Tells the variants of a lopdf `Object` apart, one level deep; a real
/// becomes `*n as i64`, a stream loses its content. The contract says that
/// what it hands out is the object's value as `object_value` names it, and
/// that the items it hands out nest less deep than the object (a lopdf
/// object is a finite tree: its items are values it owns).
#[verifier::external_body]
pub(crate) fn object_view(o: &lopdf::Object) -> (r: ObjectView)
    ensures
        object_value(*o) == shown_value(r),
        match r {
            ObjectView::Array(items) => forall|i: int|
                0 <= i < items@.len() ==> object_depth(#[trigger] items@[i]) < object_depth(*o),
            ObjectView::Dictionary(entries) => forall|i: int|
                0 <= i < entries@.len() ==> object_depth((#[trigger] entries@[i]).1) < object_depth(*o),
            _ => true,
        },
{
    match o {
        Object::Null => ObjectView::Null,
        Object::Boolean(b) => ObjectView::Boolean(*b),
        Object::Integer(n) => ObjectView::Integer(*n),
        Object::Real(n) => ObjectView::Real(*n as i64),
        Object::Name(n) => ObjectView::Name(n.clone()),
        Object::String(s, _) => ObjectView::Str(s.clone()),
        Object::Array(items) => ObjectView::Array(items.clone()),
        Object::Dictionary(d) => ObjectView::Dictionary(
            d.iter().map(|(k, v)| (k.clone(), v.clone())).collect(),
        ),
        Object::Stream(_) => ObjectView::Stream,
        Object::Reference(id) => ObjectView::Reference(id.0, id.1),
    }
}

/// `m` is the model of the content `c`: the same objects under the same ids
/// and in the same order, the same trailer entries, and the number of
/// pages.
#[verifier::opaque]
pub open spec fn models(m: PdfModel, c: PdfContent) -> bool {
    &&& m.objects@.len() == c.objects.len()
    &&& forall|i: int|
        0 <= i < c.objects.len() ==> ((#[trigger] m.objects@[i]).0, m.objects@[i].1, m.objects@[i].2@)
            == c.objects[i]
    &&& dict_value(m.trailer) == c.trailer
    &&& m.page_count == c.pages.len()
}

/// Copies a lopdf object into the model.
fn convert(o: &lopdf::Object) -> (r: PdfObject)
    ensures
        r@ == object_value(*o),
    decreases object_depth(*o),
{
    match object_view(o) {
        ObjectView::Null => PdfObject::Null,
        ObjectView::Boolean(b) => PdfObject::Boolean(b),
        ObjectView::Integer(n) => PdfObject::Integer(n),
        ObjectView::Real(n) => PdfObject::Real(n),
        ObjectView::Name(n) => PdfObject::Name(n),
        ObjectView::Str(s) => PdfObject::Str(s),
        ObjectView::Array(items) => {
            let mut out: Vec<PdfObject> = Vec::new();
            let mut i: usize = 0;
            while i < items.len()
                invariant
                    i <= items@.len(),
                    forall|j: int|
                        0 <= j < items@.len() ==> object_depth(#[trigger] items@[j]) < object_depth(*o),
                    out@.len() == i,
                    forall|j: int| 0 <= j < i ==> (#[trigger] out@[j])@ == object_value(items@[j]),
                decreases items@.len() - i,
            {
                out.push(convert(&items[i]));
                i = i + 1;
            }
            let r = PdfObject::Array(out);
            proof {
                let got = match r@ {
                    PdfValue::Array(a) => a,
                    _ => Seq::empty(),
                };
                assert(r@ == PdfValue::Array(got));
                assert(got =~= items_value(items@));
            }
            r
        },
        ObjectView::Dictionary(entries) => {
            let mut out: Vec<(Vec<u8>, PdfObject)> = Vec::new();
            let mut i: usize = 0;
            while i < entries.len()
                invariant
                    i <= entries@.len(),
                    forall|j: int|
                        0 <= j < entries@.len() ==> object_depth((#[trigger] entries@[j]).1) < object_depth(
                            *o,
                        ),
                    out@.len() == i,
                    forall|j: int|
                        0 <= j < i ==> (#[trigger] out@[j]).0@ == entries@[j].0@ && out@[j].1@ == object_value(
                            entries@[j].1,
                        ),
                decreases entries@.len() - i,
            {
                let key = vstd::slice::slice_to_vec(entries[i].0.as_slice());
                let value = convert(&entries[i].1);
                out.push((key, value));
                i = i + 1;
            }
            let d = PdfDict { entries: out };
            let r = PdfObject::Dictionary(d);
            proof {
                let got = match r@ {
                    PdfValue::Dictionary(a) => a,
                    _ => Seq::empty(),
                };
                assert(r@ == PdfValue::Dictionary(got));
                assert(got =~= entries_value(entries@));
            }
            r
        },
        ObjectView::Stream => PdfObject::Stream,
        ObjectView::Reference(n, g) => PdfObject::Reference(n, g),
    }
}

/// The model of a loaded document: its objects under their ids, in the order
/// of its `objects` map, its trailer with its entries in order, and its page
/// count.
pub fn document_model(doc: &lopdf::Document) -> (r: PdfModel)
    ensures
        models(r, doc_content(*doc)),
{
    let raw = document_objects(doc);
    let ghost c = doc_content(*doc);
    let mut objects: Vec<(u32, u16, PdfObject)> = Vec::new();
    let mut i: usize = 0;
    while i < raw.len()
        invariant
            i <= raw@.len(),
            c == doc_content(*doc),
            raw@.len() == c.objects.len(),
            forall|j: int|
                0 <= j < raw@.len() ==> ((#[trigger] raw@[j]).0, raw@[j].1, object_value(raw@[j].2))
                    == c.objects[j],
            objects@.len() == i,
            forall|j: int| 0 <= j < i ==> ((#[trigger] objects@[j]).0, objects@[j].1, objects@[j].2@) == c.objects[j],
        decreases raw@.len() - i,
    {
        let value = convert(&raw[i].2);
        objects.push((raw[i].0, raw[i].1, value));
        i = i + 1;
    }
    let entries = document_trailer(doc);
    let mut out: Vec<(Vec<u8>, PdfObject)> = Vec::new();
    let mut k: usize = 0;
    while k < entries.len()
        invariant
            k <= entries@.len(),
            out@.len() == k,
            forall|j: int|
                0 <= j < k ==> (#[trigger] out@[j]).0@ == entries@[j].0@ && out@[j].1@ == object_value(
                    entries@[j].1,
                ),
        decreases entries@.len() - k,
    {
        let key = vstd::slice::slice_to_vec(entries[k].0.as_slice());
        let value = convert(&entries[k].1);
        out.push((key, value));
        k = k + 1;
    }
    let trailer = PdfDict { entries: out };
    assert(dict_value(trailer) =~= entries_value(entries@));
    let r = PdfModel { trailer, objects, page_count: document_page_count(doc) };
    proof {
        reveal(models);
    }
    r
}

/// `a` is what signature analysis finds in the file `bytes` whose content
/// is `c`: the analysis of a model of `c`.
#[verifier::opaque]
pub open spec fn analysis_of(c: PdfContent, bytes: Seq<u8>, a: PdfAnalysisView) -> bool {
    exists|m: PdfModel| #[trigger] models(m, c) && a == spec_analyze_model(m, bytes)
}

proof fn lemma_analysis_of_content(m: PdfModel, c: PdfContent, bytes: Seq<u8>, a: PdfAnalysisView)
    requires
        models(m, c),
        a == spec_analyze_model(m, bytes),
    ensures
        analysis_of(c, bytes, a),
{
    reveal(analysis_of);
}

/// Finds and checks the signatures of the PDF file `bytes`, which lopdf's
/// `Document::load_mem` has loaded into `loaded` (its error given as its
/// display text). The load is the caller's: lopdf's reader can panic or
/// abort on some crafted files, and only the caller can contain that.
pub fn analyze_pdf(bytes: &[u8], loaded: Result<lopdf::Document, String>) -> (r: Result<PdfAnalysis, SigError>)
    ensures
        match loaded {
            Err(msg) => r is Err && r->Err_0@ == SigErrorView::Pdf(msg@),
            Ok(doc) => r is Ok && analysis_of(doc_content(doc), bytes@, r->Ok_0@),
        },
{
    let doc = match loaded {
        Ok(d) => d,
        Err(msg) => return Err(SigError::Pdf(msg)),
    };
    let model = document_model(&doc);
    let analysis = analyze_model(&model, bytes);
    proof {
        lemma_analysis_of_content(model, doc_content(doc), bytes@, analysis@);
    }
    Ok(analysis)
}

} // verus!
