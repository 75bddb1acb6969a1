//! The recovery on documents read and written by `lopdf`.
//!
//! A `lopdf::Document` is opaque here. What the recovery reads of it is
//! named by uninterpreted functions; the trusted wrappers below say how the
//! calls into `lopdf` relate to those names, and everything else is proved
//! from them.

use vstd::prelude::*;
use lopdf::{Dictionary, Document, Object};
use crate::model::{
    lookup, AnnotationList, AnnotationListView, Element, Graph, GraphView, ObjectId, Objects,
    RepairError, Value, ValueView,
};
use crate::repair::{
    build_pool, candidate_pool, decide_page, is_page_target, lemma_count_fits, lemma_pass_step,
    repair_pages, repaired, replace_annotations, same_shape, with_annotations,
};
use crate::select::pool_view;

verus! {

#[verifier::external_type_specification]
#[verifier::external_body]
pub struct ExDocument(lopdf::Document);

#[verifier::external_type_specification]
#[verifier::external_body]
pub struct ExObject(lopdf::Object);

#[verifier::external_type_specification]
#[verifier::external_body]
pub struct ExDictionary(lopdf::Dictionary);

#[verifier::external_type_specification]
#[verifier::external_body]
pub struct ExError(lopdf::Error);

#[verifier::external_type_specification]
#[verifier::external_body]
pub struct ExIoError(std::io::Error);

/// The objects that a document stores, in ascending order of identifier,
/// each reduced to what the recovery looks at.
pub uninterp spec fn document_objects(doc: Document) -> Seq<(ObjectId, ValueView)>;

/// The identifiers of a document's pages, in the order in which its page
/// tree yields them.
pub uninterp spec fn document_pages(doc: Document) -> Seq<ObjectId>;

/// The object that a document stores under an identifier, as it is.
pub uninterp spec fn document_entry(doc: Document, id: ObjectId) -> Option<Object>;

/// An object reduced to what the recovery looks at.
pub uninterp spec fn object_value(object: Object) -> ValueView;

/// The identifier at which following a reference through the document
/// ends, if it ends at an object; nothing for an object that is no
/// reference.
pub uninterp spec fn document_alias(doc: Document, object: Object) -> Option<ObjectId>;

/// An object as an element of an array: a reference or anything else.
pub uninterp spec fn object_element(object: Object) -> Element;

/// What a dictionary holds under its annotation-list key.
pub uninterp spec fn dictionary_annotations(dict: Dictionary) -> AnnotationListView;

/// The bytes that the writer gives for a document, if it can write it.
pub uninterp spec fn written(doc: Document) -> Option<Seq<u8>>;

/// The graph of a document.
pub open spec fn document_view(doc: Document) -> GraphView {
    GraphView { objects: document_objects(doc), pages: document_pages(doc) }
}

/// The key of a page's annotation list: the name `Annots`.
pub open spec fn annotation_key() -> Seq<u8> {
    seq![0x41u8, 0x6eu8, 0x6eu8, 0x6fu8, 0x74u8, 0x73u8]
}

/// An object as the document stores it: a reference is an alias of the
/// object at which following it ends, anything else is its own value.
pub open spec fn stored_value(doc: Document, object: Object) -> ValueView {
    match object_element(object) {
        Element::Reference(_) => ValueView::Alias(document_alias(doc, object)),
        Element::Literal => object_value(object),
    }
}

/// The elements of an array of objects.
pub open spec fn elements_of(items: Seq<Object>) -> Seq<Element> {
    Seq::new(items.len(), |i: int| object_element(items[i]))
}

/// An object as the value of the annotation-list key: a single reference,
/// an array, or something invalid.
pub open spec fn entry_of(object: Object) -> AnnotationListView {
    match object_element(object) {
        Element::Reference(id) => AnnotationListView::Single(id),
        Element::Literal => match object_value(object) {
            ValueView::Array(items) => AnnotationListView::List(items),
            _ => AnnotationListView::Invalid,
        },
    }
}

/// Calls `lopdf::Document::load_mem`. Nothing is claimed of what it
/// returns: the same bytes need not load to the same document twice.
#[verifier::external_body]
fn load_document(bytes: &[u8]) -> (loaded: Result<Document, lopdf::Error>) {
    Document::load_mem(bytes)
}

/// Calls `lopdf::Document::save_to` on an empty vector and returns what was
/// written. The writer reads the document alone, so its result is named
/// as a function of the document: the bytes, or none where it fails.
#[verifier::external_body]
fn save_document(doc: Document) -> (saved: Result<Vec<u8>, std::io::Error>)
    ensures
        match saved {
            Ok(bytes) => written(doc) == Some(bytes@),
            Err(_) => written(doc) is None,
        },
{
    let mut doc = doc;
    let mut bytes: Vec<u8> = Vec::new();
    doc.save_to(&mut bytes).map(|_| bytes)
}

/// Walks the public map `lopdf::Document::objects`, which is ordered by
/// identifier: one entry per stored object, in that order, each with its
/// identifier and a borrow of the object.
#[verifier::external_body]
fn stored_objects(doc: &Document) -> (entries: Vec<(ObjectId, &Object)>)
    ensures
        entries@.len() == document_objects(*doc).len(),
        forall|i: int|
            0 <= i < entries@.len() ==> (#[trigger] entries@[i]).0 == document_objects(*doc)[i].0
                && stored_value(*doc, *entries@[i].1) == document_objects(*doc)[i].1,
{
    doc.objects.iter().map(
        |(key, object)| (ObjectId { number: key.0, generation: key.1 }, object),
    ).collect()
}

/// Walks `lopdf::Document::page_iter` to its end and returns the page
/// identifiers in the order in which they come.
#[verifier::external_body]
fn page_ids(doc: &Document) -> (pages: Vec<ObjectId>)
    ensures
        pages@ == document_pages(*doc),
{
    let mut pages: Vec<ObjectId> = Vec::new();
    for id in doc.page_iter() {
        pages.push(ObjectId { number: id.0, generation: id.1 });
    }
    pages
}

/// Calls `lopdf::Document::dereference`, which follows a reference from
/// object to object as `get_object` does: the identifier of the last
/// object reached, or nothing where the object is no reference, an object
/// is missing or the chain is too long.
#[verifier::external_body]
fn follow(doc: &Document, object: &Object) -> (target: Option<ObjectId>)
    ensures
        target == document_alias(*doc, *object),
{
    doc.dereference(object).ok().and_then(|found| found.0).map(
        |id| ObjectId { number: id.0, generation: id.1 },
    )
}

/// Calls `lopdf::Object::is_null`: true exactly for the null object.
#[verifier::external_body]
fn is_null(object: &Object) -> (null: bool)
    ensures
        null == (object_value(*object) is Null),
{
    object.is_null()
}

/// Calls `lopdf::Object::as_reference`: the identifier that a reference
/// points to, and nothing for any other object. The value of an object
/// taken by itself is never an alias: that is said of a stored reference
/// with the document at hand.
#[verifier::external_body]
fn as_reference(object: &Object) -> (target: Option<ObjectId>)
    ensures
        match target {
            Some(id) => object_element(*object) == Element::Reference(id) && !(object_value(
                *object,
            ) is Alias),
            None => object_element(*object) == Element::Literal && !(object_value(
                *object,
            ) is Alias),
        },
{
    object.as_reference().ok().map(|id| ObjectId { number: id.0, generation: id.1 })
}

/// Calls `lopdf::Object::as_array`: the elements of an array, and nothing
/// for any other object.
#[verifier::external_body]
fn as_array(object: &Object) -> (items: Option<&Vec<Object>>)
    ensures
        match items {
            Some(a) => object_value(*object) == ValueView::Array(elements_of(a@)),
            None => !(object_value(*object) is Array),
        },
{
    object.as_array().ok()
}

/// Calls `lopdf::Object::as_dict`: the dictionary itself, and nothing for
/// any other object, a stream included.
#[verifier::external_body]
fn as_dict(object: &Object) -> (dict: Option<&Dictionary>)
    ensures
        match dict {
            Some(d) => object_value(*object) == ValueView::Dictionary(dictionary_annotations(*d)),
            None => !(object_value(*object) is Dictionary),
        },
{
    object.as_dict().ok()
}

/// Calls `lopdf::Dictionary::get`: the value under the key, if the
/// dictionary has the key.
#[verifier::external_body]
fn dictionary_get<'a>(dict: &'a Dictionary, key: &Vec<u8>) -> (entry: Option<&'a Object>)
    ensures
        key@ == annotation_key() ==> dictionary_annotations(*dict) == match entry {
            Some(object) => entry_of(*object),
            None => AnnotationListView::Absent,
        },
{
    dict.get(key.as_slice()).ok()
}

/// Takes the page with `lopdf::Document::get_dictionary_mut` and calls
/// `lopdf::Dictionary::set` with the key and an array of references to
/// `ids`. Only that entry of that dictionary changes: every other
/// object is stored as it was, references end where they ended, and the
/// page tree does not read the entry.
#[verifier::external_body]
fn set_annotations(doc: &mut Document, page: ObjectId, key: Vec<u8>, ids: &Vec<ObjectId>)
    requires
        key@ == annotation_key(),
        lookup(document_objects(*old(doc)), page) matches Some(v) && v is Dictionary,
    ensures
        document_objects(*final(doc)) == with_annotations(
            document_objects(*old(doc)),
            page,
            ids@,
        ),
        document_pages(*final(doc)) == document_pages(*old(doc)),
        forall|id: ObjectId|
            id != page ==> #[trigger] document_entry(*final(doc), id) == document_entry(
                *old(doc),
                id,
            ),
{
    let refs: Vec<Object> = ids.iter().map(|id| Object::Reference((id.number, id.generation))).collect();
    if let Ok(dict) = doc.get_dictionary_mut((page.number, page.generation)) {
        dict.set(key, Object::Array(refs));
    }
}

/// The name `Annots` as bytes.
fn annotation_key_bytes() -> (key: Vec<u8>)
    ensures
        key@ == annotation_key(),
{
    let key: Vec<u8> = vec![0x41u8, 0x6eu8, 0x6eu8, 0x6fu8, 0x74u8, 0x73u8];
    assert(key@ =~= annotation_key());
    key
}

/// The elements of an array of objects, in order.
fn read_elements(items: &Vec<Object>) -> (elements: Vec<Element>)
    ensures
        elements@ == elements_of(items@),
{
    let mut elements: Vec<Element> = Vec::new();
    let mut i: usize = 0;
    while i < items.len()
        invariant
            i <= items.len(),
            elements@.len() == i,
            forall|j: int| 0 <= j < i ==> elements@[j] == object_element(items@[j]),
        decreases items.len() - i,
    {
        match as_reference(&items[i]) {
            Some(id) => elements.push(Element::Reference(id)),
            None => elements.push(Element::Literal),
        }
        i += 1;
    }
    assert(elements@ =~= elements_of(items@));
    elements
}

/// What a dictionary holds under its annotation-list key.
fn read_annotations(dict: &Dictionary) -> (annots: AnnotationList)
    ensures
        annots@ == dictionary_annotations(*dict),
{
    let key = annotation_key_bytes();
    match dictionary_get(dict, &key) {
        None => AnnotationList::Absent,
        Some(object) => match as_reference(object) {
            Some(id) => AnnotationList::Single(id),
            None => match as_array(object) {
                Some(items) => AnnotationList::List(read_elements(items)),
                None => AnnotationList::Invalid,
            },
        },
    }
}

/// An object of the document reduced to what the recovery looks at.
fn read_value(doc: &Document, object: &Object) -> (value: Value)
    ensures
        value@ == stored_value(*doc, *object),
{
    if let Some(_) = as_reference(object) {
        Value::Alias(follow(doc, object))
    } else if is_null(object) {
        Value::Null
    } else {
        match as_array(object) {
            Some(items) => Value::Array(read_elements(items)),
            None => match as_dict(object) {
                Some(dict) => Value::Dictionary(read_annotations(dict)),
                None => Value::Other,
            },
        }
    }
}

/// The graph of a document.
pub fn read_graph(doc: &Document) -> (graph: Graph)
    ensures
        graph@ == document_view(*doc),
{
    let entries = stored_objects(doc);
    let mut objects: Vec<(ObjectId, Value)> = Vec::new();
    let mut i: usize = 0;
    while i < entries.len()
        invariant
            i <= entries.len(),
            objects@.len() == i,
            entries@.len() == document_objects(*doc).len(),
            forall|j: int|
                0 <= j < entries@.len() ==> (#[trigger] entries@[j]).0 == document_objects(*doc)[j].0
                    && stored_value(*doc, *entries@[j].1) == document_objects(*doc)[j].1,
            forall|j: int|
                0 <= j < i ==> (#[trigger] objects@[j]).0 == document_objects(*doc)[j].0
                    && objects@[j].1@ == document_objects(*doc)[j].1,
        decreases entries.len() - i,
    {
        let id = entries[i].0;
        let value = read_value(doc, entries[i].1);
        objects.push((id, value));
        i += 1;
    }
    let pages = page_ids(doc);
    let graph = Graph { objects, pages };
    assert(graph@.objects =~= document_objects(*doc));
    graph
}

/// The second document has the graph and the count that a repair of the
/// first gives, and stores every object to which no page of the first
/// resolves as the first stores it.
pub open spec fn is_repair_of(doc: Document, fixed: Document, count: nat) -> bool {
    &&& repaired(document_view(doc)) == Ok::<(GraphView, nat), RepairError>(
        (document_view(fixed), count),
    )
    &&& forall|id: ObjectId|
        !is_page_target(document_objects(doc), document_pages(doc), id)
            ==> #[trigger] document_entry(fixed, id) == document_entry(doc, id)
}

/// Repairs a document in place of its graph: the document that comes back
/// has the graph that `repair` gives for the graph of the one that went
/// in, the count is the same, and what is no page is stored as before.
/// On an error the document is dropped.
pub fn repair_document(doc: Document) -> (outcome: Result<(Document, u128), RepairError>)
    ensures
        match outcome {
            Ok((fixed, count)) => is_repair_of(doc, fixed, count as nat),
            Err(e) => repaired(document_view(doc)) == Err::<(GraphView, nat), RepairError>(e),
        },
{
    let ghost original = document_objects(doc);
    let ghost pages = document_pages(doc);
    let mut graph = read_graph(&doc);
    let pool = build_pool(&graph.objects);
    let mut work = doc;
    let mut count: u128 = 0;
    let mut i: usize = 0;
    proof {
        assert(pages.take(0) =~= Seq::empty());
    }
    while i < graph.pages.len()
        invariant
            i <= graph.pages.len(),
            original == document_objects(doc),
            pages == document_pages(doc),
            graph@ == document_view(work),
            graph@.pages == pages,
            forall|id: ObjectId|
                !is_page_target(original, pages, id) ==> #[trigger] document_entry(work, id)
                    == document_entry(doc, id),
            same_shape(graph@.objects, original),
            pool_view(pool@) == candidate_pool(original),
            repair_pages(original, pages.take(i as int)) == Ok::<(Objects, nat), RepairError>(
                (graph@.objects, count as nat),
            ),
            count <= i * usize::MAX,
        decreases graph.pages.len() - i,
    {
        let page = graph.pages[i];
        proof {
            lemma_pass_step(original, pages, i as int, graph@.objects, count as nat);
            assert(pages[i as int] == page);
        }
        match decide_page(&graph, &pool, page) {
            Err(e) => {
                return Err(e);
            },
            Ok(None) => {
                proof {
                    lemma_count_fits(i, count, 0);
                }
            },
            Ok(Some((target, k, added))) => {
                proof {
                    assert(pool_view(pool@)[k as int] == pool@[k as int]@);
                    lemma_count_fits(i, count, added);
                    assert(is_page_target(original, pages, target));
                }
                replace_annotations(&mut graph, target, &pool[k]);
                set_annotations(&mut work, target, annotation_key_bytes(), &pool[k]);
                count = count + (added as u128);
            },
        }
        i += 1;
    }
    proof {
        assert(pages.take(graph.pages.len() as int) =~= pages);
    }
    Ok((work, count))
}

/// The outcome is what the writer gives for the repaired document: its
/// bytes with the count, or `Serialize` where it writes none.
pub open spec fn is_written_as(
    fixed: Document,
    count: nat,
    outcome: Result<(Vec<u8>, u128), RepairError>,
) -> bool {
    match written(fixed) {
        Some(bytes) => outcome matches Ok((out, reported)) && out@ == bytes && reported == count,
        None => outcome == Err::<(Vec<u8>, u128), RepairError>(RepairError::Serialize),
    }
}

/// What is owed for a document: the error of its first page that cannot
/// be handled; else, for a repair of it, what the writer gives.
pub open spec fn document_outcome(
    doc: Document,
    outcome: Result<(Vec<u8>, u128), RepairError>,
) -> bool {
    match repaired(document_view(doc)) {
        Err(e) => outcome == Err::<(Vec<u8>, u128), RepairError>(e),
        Ok((_, count)) => exists|fixed: Document|
            is_repair_of(doc, fixed, count) && #[trigger] is_written_as(fixed, count, outcome),
    }
}

/// What is owed for bytes: `Parse`, or what is owed for a document.
pub open spec fn fix_outcome(outcome: Result<(Vec<u8>, u128), RepairError>) -> bool {
    outcome == Err::<(Vec<u8>, u128), RepairError>(RepairError::Parse) || exists|doc: Document| #[trigger]
        document_outcome(doc, outcome)
}

/// Repairs the annotation lists of the document's pages and writes the
/// document out. A page that cannot be handled gives its error and no
/// bytes. Else the result is the writer's: the bytes of the repaired
/// document with the number of annotations recovered, or `Serialize`
/// exactly where the writer gives none.
pub fn fix_document(doc: Document) -> (outcome: Result<(Vec<u8>, u128), RepairError>)
    ensures
        document_outcome(doc, outcome),
{
    let (fixed, count) = match repair_document(doc) {
        Ok(done) => done,
        Err(e) => {
            return Err(e);
        },
    };
    let ghost repaired_doc = fixed;
    let outcome = match save_document(fixed) {
        Ok(bytes) => Ok((bytes, count)),
        Err(_) => Err(RepairError::Serialize),
    };
    proof {
        let owed = repaired(document_view(doc))->Ok_0.1;
        assert(owed == count as nat);
        assert(is_repair_of(doc, repaired_doc, owed) && is_written_as(repaired_doc, owed, outcome));
    }
    outcome
}

/// Parses the bytes as a document, repairs the annotation lists of its
/// pages and writes the document out again. Bytes that the parser refuses
/// give `Parse`; for a document that it returns, the result is that of
/// `fix_document`.
pub fn fix_pdf_annotations(input: &[u8]) -> (outcome: Result<(Vec<u8>, u128), RepairError>)
    ensures
        fix_outcome(outcome),
{
    match load_document(input) {
        Ok(doc) => {
            let outcome = fix_document(doc);
            assert(document_outcome(doc, outcome));
            outcome
        },
        Err(_) => Err(RepairError::Parse),
    }
}

} // verus!
