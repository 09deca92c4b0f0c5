//! The boundary to `lopdf`: the document types, a mathematical model of PDF
//! objects, and the individual `lopdf` operations that the booklet logic
//! performs, each with the contract that `lopdf`'s source shows.
use lopdf::{Dictionary, Document, Object, Stream};
use vstd::prelude::*;
use vstd::string::StringSliceAdditionalSpecFns;

verus! {

/// An object identifier: object number and generation number.
pub type ObjectId = (u32, u16);

/// What a PDF object holds, as far as the booklet logic reads it.
/// Real numbers are kept without their value.
pub enum PdfValue {
    Null,
    Boolean(bool),
    Integer(i64),
    Real,
    Name(Seq<u8>),
    Text(Seq<u8>),
    Array(Seq<PdfValue>),
    Dictionary(Map<Seq<u8>, PdfValue>),
    Stream(Map<Seq<u8>, PdfValue>, Seq<u8>),
    Reference(ObjectId),
}

#[verifier::external_type_specification]
#[verifier::external_body]
pub struct ExDocument(Document);

#[verifier::external_type_specification]
#[verifier::external_body]
pub struct ExDictionary(Dictionary);

#[verifier::external_type_specification]
#[verifier::external_body]
pub struct ExObject(Object);

/// What a `lopdf::Object` holds; a stream as its dictionary's entries and
/// its content bytes.
pub uninterp spec fn object_value(object: Object) -> PdfValue;

/// The entries of a `lopdf::Dictionary`, by key.
pub uninterp spec fn dictionary_entries(dict: Dictionary) -> Map<Seq<u8>, PdfValue>;

/// The objects of a document (its `objects` table), by identifier.
pub uninterp spec fn document_objects(doc: Document) -> Map<ObjectId, PdfValue>;

/// The entries of a document's trailer dictionary.
pub uninterp spec fn document_trailer(doc: Document) -> Map<Seq<u8>, PdfValue>;

/// The largest object number handed out in a document (its `max_id`).
pub uninterp spec fn document_max_id(doc: Document) -> u32;

/// The pages of a document in page-tree order, as `Document::page_iter`
/// yields them.
pub uninterp spec fn document_pages(doc: Document) -> Seq<ObjectId>;

/// How many references `Document::dereference` follows before it gives up.
pub open spec fn dereference_limit() -> int {
    128
}

/// Following references from the object stored under `current`, after
/// `hops` references have been followed: the identifier of the first object
/// that is no reference, or `None` when a reference points at no stored
/// object or the limit is passed (`Document::dereference`).
pub open spec fn chase(objects: Map<ObjectId, PdfValue>, current: ObjectId, hops: int) -> Option<ObjectId>
    decreases dereference_limit() - hops,
{
    match objects[current] {
        PdfValue::Reference(next) => if !objects.contains_key(next) {
            None
        } else if hops + 1 > dereference_limit() {
            None
        } else {
            chase(objects, next, hops + 1)
        },
        _ => Some(current),
    }
}

/// The identifier of the object that `id` leads to in `objects` after
/// following references, as `Document::get_object` and
/// `Document::get_object_mut` find it; `None` when they fail.
pub open spec fn resolve_in(objects: Map<ObjectId, PdfValue>, id: ObjectId) -> Option<ObjectId> {
    if objects.contains_key(id) {
        chase(objects, id, 0)
    } else {
        None
    }
}

/// `resolve_in` over the objects of a document.
pub open spec fn resolved_id(doc: Document, id: ObjectId) -> Option<ObjectId> {
    resolve_in(document_objects(doc), id)
}

/// The entries of an empty dictionary.
pub open spec fn no_entries() -> Map<Seq<u8>, PdfValue> {
    Map::empty()
}

/// The identifiers that `Document::prune_objects` removes from a document:
/// those of the objects that the trailer does not reach through references,
/// in the order of the objects table.
pub uninterp spec fn pruned_ids(doc: Document) -> Seq<ObjectId>;

/// The bytes that `Document::save_to` writes for a document, or `None` when
/// it reports an error.
pub uninterp spec fn saved_bytes(doc: Document) -> Option<Seq<u8>>;

/// The values of a sequence of objects.
pub open spec fn values_of(objects: Seq<Object>) -> Seq<PdfValue> {
    objects.map_values(|o: Object| object_value(o))
}

/// One step into a PDF value: an item of an array, or an entry of a
/// dictionary or of a stream's dictionary.
pub enum PathStep {
    Item(nat),
    Entry(Seq<u8>),
}

/// The value reached from `value` by following `path`, if every step exists.
pub open spec fn value_at(value: PdfValue, path: Seq<PathStep>) -> Option<PdfValue>
    decreases path.len(),
{
    if path.len() == 0 {
        Some(value)
    } else {
        let rest = path.subrange(1, path.len() as int);
        match (value, path[0]) {
            (PdfValue::Array(items), PathStep::Item(i)) => if i < items.len() {
                value_at(items[i as int], rest)
            } else {
                None
            },
            (PdfValue::Dictionary(entries), PathStep::Entry(name)) => if entries.contains_key(name) {
                value_at(entries[name], rest)
            } else {
                None
            },
            (PdfValue::Stream(entries, _), PathStep::Entry(name)) => if entries.contains_key(name) {
                value_at(entries[name], rest)
            } else {
                None
            },
            _ => None,
        }
    }
}

/// The identifier that the reference reached by `path` from `value` points
/// at, if `path` leads to a reference.
pub open spec fn reference_at(value: PdfValue, path: Seq<PathStep>) -> Option<ObjectId> {
    match value_at(value, path) {
        Some(PdfValue::Reference(id)) => Some(id),
        _ => None,
    }
}

/// The key bytes of a dictionary key written as text.
pub open spec fn key(name: &str) -> Seq<u8> {
    name.spec_bytes()
}

/// Whether `value` is a dictionary whose entry `name` is `entry`.
pub open spec fn has_entry(value: PdfValue, name: Seq<u8>, entry: PdfValue) -> bool {
    value matches PdfValue::Dictionary(entries) && entries.contains_key(name) && entries[name] == entry
}

/// Whether each of `pages` is stored in `objects` as a dictionary of `Type`
/// `Page`.
pub open spec fn stored_as_pages(objects: Map<ObjectId, PdfValue>, pages: Seq<ObjectId>) -> bool {
    forall|i: int|
        0 <= i < pages.len() ==> #[trigger] objects.contains_key(pages[i]) && has_entry(
            objects[pages[i]],
            key("Type"),
            PdfValue::Name(key("Page")),
        )
}

/// Whether the page tree of `doc` is a single node whose `Kids` are `pages`:
/// the trailer's `Root` refers to the catalog, whose `Pages` entry refers to
/// a dictionary whose `Kids` array refers to each of `pages` in order, and
/// each of `pages`, none twice, is stored as a dictionary of `Type` `Page`.
pub open spec fn flat_page_tree(doc: Document, pages: Seq<ObjectId>) -> bool {
    let objects = document_objects(doc);
    let trailer = document_trailer(doc);
    &&& pages.no_duplicates()
    &&& stored_as_pages(objects, pages)
    &&& trailer.contains_key(key("Root"))
    &&& match trailer[key("Root")] {
        PdfValue::Reference(root) => match resolve_in(objects, root) {
            Some(catalog) => match objects[catalog] {
                PdfValue::Dictionary(entries) => entries.contains_key(key("Pages")) && match entries[key("Pages")] {
                    PdfValue::Reference(tree) => match resolve_in(objects, tree) {
                        Some(node) => has_entry(
                            objects[node],
                            key("Kids"),
                            PdfValue::Array(pages.map_values(|id: ObjectId| PdfValue::Reference(id))),
                        ),
                        None => false,
                    },
                    _ => false,
                },
                _ => false,
            },
            None => false,
        },
        _ => false,
    }
}

/// `Document::page_iter`, its items collected one at a time: the pages of
/// the document as the page tree lists them; for a tree of one node
/// (`flat_page_tree`), its `Kids` in order. (The iterator visits at most as
/// many kids as the document has objects, which distinct stored pages never
/// exceed. Pushing item by item never reserves room from the iterator's
/// `size_hint`, which sums `Count` values read from the file.)
#[verifier::external_body]
pub(crate) fn pages_in_order(doc: &Document) -> (pages: Vec<ObjectId>)
    ensures
        pages@ == document_pages(*doc),
        forall|kids: Seq<ObjectId>| flat_page_tree(*doc, kids) ==> pages@ == kids,
{
    let mut pages = Vec::new();
    for id in doc.page_iter() {
        pages.push(id);
    }
    pages
}

/// Reads the document's `max_id` field, the last object number handed out.
#[verifier::external_body]
pub(crate) fn last_object_number(doc: &Document) -> (n: u32)
    ensures
        n == document_max_id(*doc),
{
    doc.max_id
}

/// `Document::add_object`: it raises `max_id` by one, stores the object
/// under `(max_id, 0)` and returns that identifier. `max_id` must have room
/// to grow (`+=` on a `u32`).
#[verifier::external_body]
pub(crate) fn insert_object(doc: &mut Document, object: Object) -> (id: ObjectId)
    requires
        document_max_id(*old(doc)) < u32::MAX,
    ensures
        id.0 == document_max_id(*old(doc)) + 1,
        id.1 == 0,
        document_max_id(*final(doc)) == document_max_id(*old(doc)) + 1,
        document_objects(*final(doc)) == document_objects(*old(doc)).insert(id, object_value(object)),
        document_trailer(*final(doc)) == document_trailer(*old(doc)),
{
    doc.add_object(object)
}

/// `Object::Dictionary` holding `dict`.
#[verifier::external_body]
pub(crate) fn dictionary_object(dict: Dictionary) -> (object: Object)
    ensures
        object_value(object) == PdfValue::Dictionary(dictionary_entries(dict)),
{
    Object::Dictionary(dict)
}

/// `Stream::new`, held in an `Object::Stream`: the stream keeps `content`
/// as it is and its dictionary gets a `Length` entry, the content's length.
#[verifier::external_body]
pub(crate) fn stream_object(dict: Dictionary, content: Vec<u8>) -> (object: Object)
    requires
        content@.len() <= i64::MAX,
    ensures
        object_value(object) == PdfValue::Stream(
            dictionary_entries(dict).insert(key("Length"), PdfValue::Integer(content@.len() as i64)),
            content@,
        ),
{
    Object::Stream(Stream::new(dict, content))
}

/// `Object::clone` (derived): a copy holding the same value.
#[verifier::external_body]
pub(crate) fn copy_object(object: &Object) -> (copy: Object)
    ensures
        object_value(copy) == object_value(*object),
{
    object.clone()
}

/// `Document::get_object`, kept when it yields a dictionary: the dictionary
/// stored at the identifier that `id` resolves to.
#[verifier::external_body]
pub(crate) fn dictionary_at(doc: &Document, id: ObjectId) -> (dict: Option<&Dictionary>)
    ensures
        dict is Some <==> (resolved_id(*doc, id) matches Some(s) && document_objects(*doc).contains_key(s)
            && document_objects(*doc)[s] is Dictionary),
        dict matches Some(d) ==> (resolved_id(*doc, id) matches Some(s) && document_objects(*doc)[s]
            == PdfValue::Dictionary(dictionary_entries(*d))),
{
    match doc.get_object(id) {
        Ok(Object::Dictionary(d)) => Some(d),
        _ => None,
    }
}

/// `Document::get_object_mut`, kept when it yields a dictionary: the
/// dictionary stored at the identifier that `id` resolves to, for update.
/// Whatever is done to it is what the document holds there afterwards. When
/// the object is missing or no dictionary, the document is left as it was.
#[verifier::external_body]
pub(crate) fn dictionary_for_update(doc: &mut Document, id: ObjectId) -> (dict: Option<&mut Dictionary>)
    ensures
        dict is Some <==> (resolved_id(*old(doc), id) matches Some(s) && document_objects(
            *old(doc),
        ).contains_key(s) && document_objects(*old(doc))[s] is Dictionary),
        dict matches Some(d) ==> (resolved_id(*old(doc), id) matches Some(s) && document_objects(
            *old(doc),
        )[s] == PdfValue::Dictionary(dictionary_entries(*d)) && document_objects(*final(doc))
            == document_objects(*old(doc)).insert(
            s,
            PdfValue::Dictionary(dictionary_entries(*final(d))),
        )),
        dict is Some ==> document_max_id(*final(doc)) == document_max_id(*old(doc)),
        dict is Some ==> document_trailer(*final(doc)) == document_trailer(*old(doc)),
        dict is None ==> *final(doc) == *old(doc),
{
    match doc.get_object_mut(id) {
        Ok(Object::Dictionary(d)) => Some(d),
        _ => None,
    }
}

/// `Dictionary::new`: a dictionary without entries.
#[verifier::external_body]
pub(crate) fn new_dictionary() -> (dict: Dictionary)
    ensures
        dictionary_entries(dict) == no_entries(),
{
    Dictionary::new()
}

/// `Dictionary::get`: the entry under `name`, if there is one.
#[verifier::external_body]
pub(crate) fn dictionary_entry<'a>(dict: &'a Dictionary, name: &str) -> (entry: Option<&'a Object>)
    ensures
        entry is Some <==> dictionary_entries(*dict).contains_key(key(name)),
        entry matches Some(o) ==> object_value(*o) == dictionary_entries(*dict)[key(name)],
{
    dict.get(name.as_bytes()).ok()
}

/// `Dictionary::set`: the entry under `name` becomes `value`, the others
/// stay.
#[verifier::external_body]
pub(crate) fn set_entry(dict: &mut Dictionary, name: &str, value: Object)
    ensures
        dictionary_entries(*final(dict)) == dictionary_entries(*old(dict)).insert(
            key(name),
            object_value(value),
        ),
{
    dict.set(name, value)
}

/// `Object::as_array`: the items of an array object.
#[verifier::external_body]
pub(crate) fn array_items(object: &Object) -> (items: Option<&Vec<Object>>)
    ensures
        items is Some <==> object_value(*object) is Array,
        items matches Some(v) ==> object_value(*object) == PdfValue::Array(values_of(v@)),
{
    object.as_array().ok()
}

/// `Object::as_i64`: the value of an integer object.
#[verifier::external_body]
pub(crate) fn integer_value(object: &Object) -> (value: Option<i64>)
    ensures
        value == (match object_value(*object) {
            PdfValue::Integer(i) => Some(i),
            _ => None,
        }),
{
    object.as_i64().ok()
}

/// `Object::as_reference`: the identifier a reference object points to.
#[verifier::external_body]
pub(crate) fn reference_value(object: &Object) -> (target: Option<ObjectId>)
    ensures
        target == (match object_value(*object) {
            PdfValue::Reference(id) => Some(id),
            _ => None,
        }),
{
    object.as_reference().ok()
}

/// The document's `trailer` field.
#[verifier::external_body]
pub(crate) fn trailer_of(doc: &Document) -> (trailer: &Dictionary)
    ensures
        dictionary_entries(*trailer) == document_trailer(*doc),
{
    &doc.trailer
}

/// `<[Object]>::to_vec`: `Object`'s derived `Clone` copies each item.
#[verifier::external_body]
pub(crate) fn copy_objects(items: &[Object]) -> (copy: Vec<Object>)
    ensures
        values_of(copy@) == values_of(items@),
{
    items.to_vec()
}

/// `Object::Name` holding the bytes of `name`.
#[verifier::external_body]
pub(crate) fn name_object(name: &str) -> (object: Object)
    ensures
        object_value(object) == PdfValue::Name(key(name)),
{
    Object::Name(name.as_bytes().to_vec())
}

/// `Object::Integer`.
#[verifier::external_body]
pub(crate) fn integer_object(value: i64) -> (object: Object)
    ensures
        object_value(object) == PdfValue::Integer(value),
{
    Object::Integer(value)
}

/// `Object::Reference`.
#[verifier::external_body]
pub(crate) fn reference_object(id: ObjectId) -> (object: Object)
    ensures
        object_value(object) == PdfValue::Reference(id),
{
    Object::Reference(id)
}

/// `Object::Array` holding `items`.
#[verifier::external_body]
pub(crate) fn array_object(items: Vec<Object>) -> (object: Object)
    ensures
        object_value(object) == PdfValue::Array(values_of(items@)),
{
    Object::Array(items)
}

/// `Document::clone` (derived): a copy with the same objects, trailer,
/// `max_id` and page tree.
#[verifier::external_body]
pub(crate) fn copy_document(doc: &Document) -> (copy: Document)
    ensures
        document_objects(copy) == document_objects(*doc),
        document_trailer(copy) == document_trailer(*doc),
        document_max_id(copy) == document_max_id(*doc),
        document_pages(copy) == document_pages(*doc),
        pruned_ids(copy) == pruned_ids(*doc),
        forall|x: ObjectId| resolved_id(copy, x) == resolved_id(*doc, x),
{
    doc.clone()
}

/// `Document::prune_objects`: removes the objects listed by `pruned_ids` (each
/// one in the objects table) and returns their identifiers; the trailer and
/// `max_id` stay. What it keeps is what the trailer reaches through
/// references: an object that a reference anywhere inside the trailer
/// points at is kept, and so is one that a reference anywhere inside a kept
/// object points at.
#[verifier::external_body]
pub(crate) fn prune_unreferenced(doc: &mut Document) -> (removed: Vec<ObjectId>)
    ensures
        removed@ == pruned_ids(*old(doc)),
        forall|i: int| 0 <= i < removed@.len() ==> document_objects(*old(doc)).contains_key(#[trigger] removed@[i]),
        document_objects(*final(doc)) == document_objects(*old(doc)).remove_keys(removed@.to_set()),
        document_trailer(*final(doc)) == document_trailer(*old(doc)),
        document_max_id(*final(doc)) == document_max_id(*old(doc)),
        forall|path: Seq<PathStep>|
            #[trigger] reference_at(PdfValue::Dictionary(document_trailer(*old(doc))), path) is Some
                ==> !removed@.contains(reference_at(PdfValue::Dictionary(document_trailer(*old(doc))), path)->Some_0),
        forall|x: ObjectId, path: Seq<PathStep>|
            document_objects(*old(doc)).contains_key(x) && !removed@.contains(x) && #[trigger] reference_at(
                document_objects(*old(doc))[x],
                path,
            ) is Some ==> !removed@.contains(reference_at(document_objects(*old(doc))[x], path)->Some_0),
{
    doc.prune_objects()
}

/// `Document::save_to` into a byte vector: the bytes it writes, `None` when
/// it reports an error. Writing adds 1 to `max_id` for the cross-reference
/// table's size and, for a cross-reference stream, raises `max_id` by one
/// and adds 1 again (`u32` arithmetic), so `max_id` must leave room for 2.
#[verifier::external_body]
pub(crate) fn save_to_bytes(doc: Document) -> (bytes: Option<Vec<u8>>)
    requires
        document_max_id(doc) <= u32::MAX - 2,
    ensures
        bytes is Some <==> saved_bytes(doc) is Some,
        bytes matches Some(b) ==> saved_bytes(doc) == Some(b@),
{
    let mut doc = doc;
    let mut bytes = Vec::new();
    match doc.save_to(&mut bytes) {
        Ok(()) => Some(bytes),
        Err(_) => None,
    }
}

} // verus!
