//! The edits a booklet makes to a PDF document: blank pages to fill the last
//! booklet, the booklets' page lists, turned back sides, and a new page tree
//! that the catalog points to.
use crate::error::BookletError;
use crate::layout::{
    booklet_bounds, booklet_count, booklet_count_spec, booklet_end, booklet_order, booklet_order_spec,
    booklet_start, lemma_booklet_order_is_permutation, lemma_booklets_partition_pages,
    lemma_padding_keeps_pages, lemma_padding_step, padded_pages, pages_per_booklet, place_blank,
    lemma_round_up_to_four, lemma_rtl_swaps_halves, lemma_ceil_div, requested_base, round_up_to_four, booklet_source,
};
use crate::pdf::{
    array_items, array_object, copy_objects, dictionary_at, dictionary_entry, dictionary_for_update,
    document_max_id, document_objects, document_pages, document_trailer, insert_object, dictionary_object, stream_object, copy_object,
    integer_object, integer_value, key, last_object_number, name_object, object_value, new_dictionary,
    no_entries, pages_in_order, reference_object, reference_value, resolve_in, resolved_id, chase, set_entry,
    trailer_of, values_of, ObjectId, PdfValue, copy_document, prune_unreferenced, pruned_ids, save_to_bytes, saved_bytes,
    has_entry, flat_page_tree, reference_at, value_at, PathStep, stored_as_pages,
};
use crate::sides::{half_turn, half_turn_spec, on_back_side, reordered_page_turned};
use lopdf::{Document, Object};
use vstd::prelude::*;

verus! {

/// The page dictionary of a blank page with the given media box.
pub open spec fn blank_page_value(media_box: Seq<PdfValue>) -> PdfValue {
    PdfValue::Dictionary(
        no_entries().insert(key("Type"), PdfValue::Name(key("Page"))).insert(
            key("MediaBox"),
            PdfValue::Array(media_box),
        ),
    )
}

/// Whether the document can take one more object: its last object number
/// is below the largest one.
pub fn has_object_room(doc: &Document) -> (room: bool)
    ensures
        room == (document_max_id(*doc) < u32::MAX),
{
    last_object_number(doc) < u32::MAX
}

/// Adds a blank page (a `Page` dictionary with the given media box) to the
/// document and returns its identifier, the next object number.
pub fn create_blank_page(doc: &mut Document, media_box: &[Object]) -> (id: ObjectId)
    requires
        document_max_id(*old(doc)) < u32::MAX,
    ensures
        id.0 == document_max_id(*old(doc)) + 1,
        id.1 == 0,
        document_max_id(*final(doc)) == document_max_id(*old(doc)) + 1,
        document_objects(*final(doc)) == document_objects(*old(doc)).insert(
            id,
            blank_page_value(values_of(media_box@)),
        ),
        document_trailer(*final(doc)) == document_trailer(*old(doc)),
        resolved_id(*final(doc), id) == Some(id),
{
    let mut dict = new_dictionary();
    set_entry(&mut dict, "Type", name_object("Page"));
    set_entry(&mut dict, "MediaBox", array_object(copy_objects(media_box)));
    insert_object(doc, dictionary_object(dict))
}

/// The media box used when none can be read: A4 portrait in points.
pub open spec fn default_media_box() -> Seq<PdfValue> {
    seq![PdfValue::Integer(0), PdfValue::Integer(0), PdfValue::Integer(595), PdfValue::Integer(842)]
}

/// The media box that blank pages get: the `MediaBox` array of the given
/// page when it is a dictionary that has one, the default otherwise.
pub open spec fn media_box_for_blanks(doc: Document, page: ObjectId) -> Seq<PdfValue> {
    let objects = document_objects(doc);
    match resolved_id(doc, page) {
        Some(s) => if objects.contains_key(s) {
            match objects[s] {
                PdfValue::Dictionary(entries) => if entries.contains_key(key("MediaBox")) {
                    match entries[key("MediaBox")] {
                        PdfValue::Array(items) => items,
                        _ => default_media_box(),
                    }
                } else {
                    default_media_box()
                },
                _ => default_media_box(),
            }
        } else {
            default_media_box()
        },
        None => default_media_box(),
    }
}

/// Blank pages take the first page's media box as it stands: whenever the
/// first page is a stored dictionary whose `MediaBox` is an array, the blank
/// pages' media box is that array, item for item, whatever its items are;
/// only otherwise is it the default.
pub proof fn lemma_blanks_copy_first_media_box(doc: Document, first_page: ObjectId)
    ensures
        page_dictionary(doc, first_page) matches Some(entries) ==> (entries.contains_key(key("MediaBox"))
            && entries[key("MediaBox")] is Array ==> media_box_for_blanks(doc, first_page)
            == entries[key("MediaBox")]->Array_0),
        !(page_dictionary(doc, first_page) matches Some(entries) && entries.contains_key(key("MediaBox"))
            && entries[key("MediaBox")] is Array) ==> media_box_for_blanks(doc, first_page) == default_media_box(),
{
}

/// The media box for blank pages, taken from the page `first_page`
/// (see `media_box_for_blanks`).
pub fn blank_media_box(doc: &Document, first_page: ObjectId) -> (media_box: Vec<Object>)
    ensures
        values_of(media_box@) == media_box_for_blanks(*doc, first_page),
{
    if let Some(dict) = dictionary_at(doc, first_page) {
        if let Some(entry) = dictionary_entry(dict, "MediaBox") {
            if let Some(items) = array_items(entry) {
                return copy_objects(items.as_slice());
            }
        }
    }
    let mut media_box = Vec::new();
    media_box.push(integer_object(0));
    media_box.push(integer_object(0));
    media_box.push(integer_object(595));
    media_box.push(integer_object(842));
    assert(values_of(media_box@) =~= default_media_box());
    media_box
}

/// How a document is cut into booklets.
pub struct BookletPlan {
    /// The document's pages in page-tree order.
    pub pages: Vec<ObjectId>,
    /// Pages in each booklet, a multiple of four.
    pub per_booklet: usize,
    /// Number of booklets.
    pub booklet_count: usize,
}

/// The entries of the form XObject that shows the page `page` of `doc`
/// (before its `Length`): `Type` `XObject`, `Subtype` `Form` and `FormType`
/// 1; when the page is a dictionary, `BBox` its `MediaBox` (the default
/// media box when it has none) and its `Resources` when it has them; and
/// `Matrix` holding `matrix`.
pub open spec fn form_entries(doc: Document, page: ObjectId, matrix: Seq<PdfValue>) -> Map<Seq<u8>, PdfValue> {
    let objects = document_objects(doc);
    let base = no_entries().insert(key("Type"), PdfValue::Name(key("XObject"))).insert(
        key("Subtype"),
        PdfValue::Name(key("Form")),
    ).insert(key("FormType"), PdfValue::Integer(1));
    let framed = match resolved_id(doc, page) {
        Some(s) => if objects.contains_key(s) {
            match objects[s] {
                PdfValue::Dictionary(entries) => {
                    let boxed = if entries.contains_key(key("MediaBox")) {
                        base.insert(key("BBox"), entries[key("MediaBox")])
                    } else {
                        base.insert(key("BBox"), PdfValue::Array(default_media_box()))
                    };
                    if entries.contains_key(key("Resources")) {
                        boxed.insert(key("Resources"), entries[key("Resources")])
                    } else {
                        boxed
                    }
                },
                _ => base,
            }
        } else {
            base
        },
        None => base,
    };
    framed.insert(key("Matrix"), PdfValue::Array(matrix))
}

/// Adds a form XObject that draws the page `page_id`: a stream whose
/// entries are `form_entries` with its `Length`, and whose content is
/// `content`, the page's content. `matrix` places the page in the form.
/// Returns the stream's identifier. Fails with `ObjectNumbersExhausted`,
/// leaving the document as it was, when no object number is left.
pub fn create_form_xobject(
    doc: &mut Document,
    page_id: ObjectId,
    matrix: Vec<Object>,
    content: Vec<u8>,
) -> (r: Result<ObjectId, BookletError>)
    requires
        content@.len() <= i64::MAX,
    ensures
        r is Ok <==> document_max_id(*old(doc)) < u32::MAX,
        r matches Err(e) ==> e == BookletError::ObjectNumbersExhausted && *final(doc) == *old(doc),
        r matches Ok(id) ==> {
            &&& id == next_object_id(*old(doc))
            &&& document_max_id(*final(doc)) == document_max_id(*old(doc)) + 1
            &&& document_trailer(*final(doc)) == document_trailer(*old(doc))
            &&& document_objects(*final(doc)) == document_objects(*old(doc)).insert(
                id,
                PdfValue::Stream(
                    form_entries(*old(doc), page_id, values_of(matrix@)).insert(
                        key("Length"),
                        PdfValue::Integer(content@.len() as i64),
                    ),
                    content@,
                ),
            )
        },
{
    if last_object_number(doc) == u32::MAX {
        return Err(BookletError::ObjectNumbersExhausted);
    }
    let mut form = new_dictionary();
    set_entry(&mut form, "Type", name_object("XObject"));
    set_entry(&mut form, "Subtype", name_object("Form"));
    set_entry(&mut form, "FormType", integer_object(1));
    if let Some(page) = dictionary_at(doc, page_id) {
        match dictionary_entry(page, "MediaBox") {
            Some(media_box) => set_entry(&mut form, "BBox", copy_object(media_box)),
            None => {
                let mut corners = Vec::new();
                corners.push(integer_object(0));
                corners.push(integer_object(0));
                corners.push(integer_object(595));
                corners.push(integer_object(842));
                assert(values_of(corners@) =~= default_media_box());
                set_entry(&mut form, "BBox", array_object(corners));
            },
        }
        if let Some(resources) = dictionary_entry(page, "Resources") {
            set_entry(&mut form, "Resources", copy_object(resources));
        }
    }
    set_entry(&mut form, "Matrix", array_object(matrix));
    Ok(insert_object(doc, stream_object(form, content)))
}

/// The entries of the dictionary that `page` resolves to in `doc`, when it
/// resolves to a stored dictionary.
pub open spec fn page_dictionary(doc: Document, page: ObjectId) -> Option<Map<Seq<u8>, PdfValue>> {
    match resolved_id(doc, page) {
        Some(s) => if document_objects(doc).contains_key(s) {
            match document_objects(doc)[s] {
                PdfValue::Dictionary(entries) => Some(entries),
                _ => None,
            }
        } else {
            None
        },
        None => None,
    }
}

proof fn lemma_entry_name_lengths()
    ensures
        key("Type").len() == 4,
        key("Subtype").len() == 7,
        key("FormType").len() == 8,
        key("BBox").len() == 4,
        key("Resources").len() == 9,
        key("Matrix").len() == 6,
        key("Count").len() == 5,
        key("Kids").len() == 4,
{
    broadcast use vstd::string::is_ascii_spec_bytes;

    reveal_strlit("Type");
    reveal_strlit("Subtype");
    reveal_strlit("FormType");
    reveal_strlit("BBox");
    reveal_strlit("Resources");
    reveal_strlit("Matrix");
    reveal_strlit("Count");
    reveal_strlit("Kids");
    assert(vstd::string::is_ascii("Type"));
    assert(vstd::string::is_ascii("Subtype"));
    assert(vstd::string::is_ascii("FormType"));
    assert(vstd::string::is_ascii("BBox"));
    assert(vstd::string::is_ascii("Resources"));
    assert(vstd::string::is_ascii("Matrix"));
    assert(vstd::string::is_ascii("Count"));
    assert(vstd::string::is_ascii("Kids"));
}

/// The form XObject of a page that is a dictionary carries the page's
/// `Resources` entry exactly as the page holds it (a reference included),
/// and none when the page has none; its `BBox` is the page's `MediaBox`
/// whatever that holds; its `Matrix` holds the given matrix.
pub proof fn lemma_form_carries_page_entries(doc: Document, page: ObjectId, matrix: Seq<PdfValue>)
    requires
        page_dictionary(doc, page) is Some,
    ensures
        ({
            let entries = page_dictionary(doc, page)->Some_0;
            let form = form_entries(doc, page, matrix);
            &&& form.contains_key(key("Resources")) == entries.contains_key(key("Resources"))
            &&& entries.contains_key(key("Resources")) ==> form[key("Resources")] == entries[key("Resources")]
            &&& form.contains_key(key("BBox"))
            &&& entries.contains_key(key("MediaBox")) ==> form[key("BBox")] == entries[key("MediaBox")]
            &&& form.contains_key(key("Matrix")) && form[key("Matrix")] == PdfValue::Array(matrix)
        }),
{
    lemma_entry_name_lengths();
}

/// Every form made for a page is a form XObject of form type 1.
pub proof fn lemma_form_is_form_xobject(doc: Document, page: ObjectId, matrix: Seq<PdfValue>)
    ensures
        form_entries(doc, page, matrix).contains_key(key("Type")),
        form_entries(doc, page, matrix)[key("Type")] == PdfValue::Name(key("XObject")),
        form_entries(doc, page, matrix).contains_key(key("Subtype")),
        form_entries(doc, page, matrix)[key("Subtype")] == PdfValue::Name(key("Form")),
        form_entries(doc, page, matrix).contains_key(key("FormType")),
        form_entries(doc, page, matrix)[key("FormType")] == PdfValue::Integer(1),
{
    broadcast use vstd::string::is_ascii_spec_bytes;

    lemma_entry_name_lengths();
    reveal_strlit("Type");
    reveal_strlit("BBox");
    assert(vstd::string::is_ascii("Type"));
    assert(vstd::string::is_ascii("BBox"));
    assert(key("Type")[0] != key("BBox")[0]);
}

/// The form XObject of a page that is no stored dictionary has neither a
/// `BBox` nor `Resources`.
pub proof fn lemma_form_of_missing_page(doc: Document, page: ObjectId, matrix: Seq<PdfValue>)
    requires
        page_dictionary(doc, page) is None,
    ensures
        !form_entries(doc, page, matrix).contains_key(key("BBox")),
        !form_entries(doc, page, matrix).contains_key(key("Resources")),
{
    broadcast use vstd::string::is_ascii_spec_bytes;

    lemma_entry_name_lengths();
    reveal_strlit("Type");
    reveal_strlit("BBox");
    assert(vstd::string::is_ascii("Type"));
    assert(vstd::string::is_ascii("BBox"));
    assert(key("Type")[0] != key("BBox")[0]);
    assert(key("Type") != key("BBox"));
}

/// A new page tree node counts exactly the pages it lists: its `Count` is
/// the number of its `Kids`, and kid `i` refers to page `i`.
pub proof fn lemma_page_tree_counts_its_kids(pages: Seq<ObjectId>)
    requires
        pages.len() <= i64::MAX,
    ensures
        has_entry(page_tree_value(pages), key("Count"), PdfValue::Integer(pages.len() as i64)),
        (pages.len() as i64) as int == pages.len(),
        page_tree_value(pages)->Dictionary_0.contains_key(key("Kids")),
        page_tree_value(pages)->Dictionary_0[key("Kids")] is Array,
        page_tree_value(pages)->Dictionary_0[key("Kids")]->Array_0.len() == pages.len(),
        forall|i: int|
            0 <= i < pages.len() ==> page_tree_value(pages)->Dictionary_0[key("Kids")]->Array_0[i]
                == PdfValue::Reference(#[trigger] pages[i]),
{
    lemma_entry_name_lengths();
}

/// Reads the document's pages and fixes the booklet size (see
/// `pages_per_booklet`) and the number of booklets.
/// Fails with `NoPages` when the document has no pages, and otherwise with
/// `InvalidPagesPerBooklet` when no booklet size can be derived. A page tree
/// of one node (`flat_page_tree`) gives its `Kids` as the pages.
pub fn plan_booklets(doc: &Document, requested: usize) -> (r: Result<BookletPlan, BookletError>)
    ensures
        (r matches Err(e) && e == BookletError::NoPages) <==> document_pages(*doc).len() == 0,
        r is Ok <==> ({
            let base = requested_base(requested as int, document_pages(*doc).len() as int);
            document_pages(*doc).len() > 0 && 0 < base && base + 3 <= usize::MAX
        }),
        r matches Err(e) ==> e == BookletError::NoPages || e == BookletError::InvalidPagesPerBooklet,
        forall|kids: Seq<ObjectId>| #[trigger] flat_page_tree(*doc, kids) ==> document_pages(*doc) == kids,
        r matches Ok(plan) ==> {
            &&& plan.pages@ == document_pages(*doc)
            &&& plan.per_booklet == round_up_to_four(
                requested_base(requested as int, document_pages(*doc).len() as int),
            )
            &&& plan.per_booklet > 0
            &&& plan.per_booklet % 4 == 0
            &&& plan.booklet_count == booklet_count_spec(plan.pages.len() as int, plan.per_booklet as int)
        },
{
    let pages = pages_in_order(doc);
    if pages.len() == 0 {
        return Err(BookletError::NoPages);
    }
    let per_booklet = match pages_per_booklet(requested, pages.len()) {
        Ok(n) => n,
        Err(e) => {
            return Err(e);
        },
    };
    let booklet_count = booklet_count(pages.len(), per_booklet);
    proof {
        lemma_round_up_to_four(requested_base(requested as int, pages@.len() as int));
    }
    Ok(BookletPlan { pages, per_booklet, booklet_count })
}

/// Identifiers of `count` objects numbered from `first_number` on.
pub open spec fn fresh_ids(first_number: int, count: int) -> Seq<ObjectId> {
    Seq::new(count as nat, |k: int| ((first_number + k) as u32, 0u16))
}

/// `objects` with `count` copies of `page` stored under the identifiers
/// numbered from `first_number` on, stored in increasing order.
pub open spec fn with_blank_pages(
    objects: Map<ObjectId, PdfValue>,
    first_number: int,
    count: nat,
    page: PdfValue,
) -> Map<ObjectId, PdfValue>
    decreases count,
{
    if count == 0 {
        objects
    } else {
        with_blank_pages(objects, first_number, (count - 1) as nat, page).insert(
            ((first_number + count - 1) as u32, 0u16),
            page,
        )
    }
}

/// Number of blank pages that booklet `index` needs to be full.
pub open spec fn blanks_needed(page_count: int, per: int, index: int) -> int {
    per - (booklet_end(page_count, per, index) - booklet_start(per, index))
}

/// Whether booklet `index` puts its blank pages before its last page: only
/// the last booklet does, and only when the last page is to stay on the back
/// cover.
pub open spec fn blanks_before_last(page_count: int, per: int, index: int, last_page_back: bool) -> bool {
    last_page_back && index == booklet_count_spec(page_count, per) - 1
}

/// The pages of booklet `index` in printing order: its pages taken from
/// `pages`, filled up with new blank pages (created in the document, with the
/// given media box) and arranged by `booklet_order`.
/// Fails with `ObjectNumbersExhausted`, leaving the document as it was, when
/// the blank pages would run out of object numbers.
pub fn arrange_booklet(
    doc: &mut Document,
    pages: &Vec<ObjectId>,
    per_booklet: usize,
    index: usize,
    last_page_back: bool,
    rtl: bool,
    media_box: &[Object],
) -> (r: Result<Vec<ObjectId>, BookletError>)
    requires
        per_booklet > 0,
        index < booklet_count_spec(pages@.len() as int, per_booklet as int),
    ensures
        ({
            let n = pages@.len() as int;
            let per = per_booklet as int;
            let missing = blanks_needed(n, per, index as int);
            let first = document_max_id(*old(doc)) + 1;
            &&& r is Ok <==> document_max_id(*old(doc)) + missing <= u32::MAX
            &&& r matches Err(e) ==> e == BookletError::ObjectNumbersExhausted && *final(doc) == *old(doc)
            &&& r matches Ok(order) ==> {
                &&& order@ == booklet_order_spec(
                    padded_pages(
                        pages@.subrange(booklet_start(per, index as int), booklet_end(n, per, index as int)),
                        fresh_ids(first, missing),
                        blanks_before_last(n, per, index as int, last_page_back),
                    ),
                    rtl,
                )
                &&& document_objects(*final(doc)) == with_blank_pages(
                    document_objects(*old(doc)),
                    first,
                    missing as nat,
                    blank_page_value(values_of(media_box@)),
                )
                &&& document_max_id(*final(doc)) == document_max_id(*old(doc)) + missing
                &&& document_trailer(*final(doc)) == document_trailer(*old(doc))
                &&& missing == 0 ==> *final(doc) == *old(doc)
            }
        }),
{
    let (start, end) = booklet_bounds(pages.len(), per_booklet, index);
    let count = booklet_count(pages.len(), per_booklet);
    let missing = per_booklet - (end - start);
    let max_id = last_object_number(doc);
    let room = u32::MAX - max_id;
    if missing > room as usize {
        return Err(BookletError::ObjectNumbersExhausted);
    }
    let before_last = last_page_back && index == count - 1;
    let mut chunk: Vec<ObjectId> = Vec::new();
    let mut i = start;
    while i < end
        invariant
            start <= i <= end <= pages@.len(),
            chunk@ == pages@.subrange(start as int, i as int),
        decreases end - i,
    {
        chunk.push(pages[i]);
        assert(chunk@ =~= pages@.subrange(start as int, i + 1));
        i = i + 1;
    }
    let ghost own_pages = chunk@;
    let ghost objects0 = document_objects(*doc);
    let ghost page = blank_page_value(values_of(media_box@));
    let ghost first = max_id + 1;
    assert(chunk@ == padded_pages(own_pages, fresh_ids(first, 0), before_last)) by {
        assert(fresh_ids(first, 0) =~= Seq::<ObjectId>::empty());
        if before_last {
            assert(own_pages.drop_last() + Seq::<ObjectId>::empty() + seq![own_pages.last()] =~= own_pages);
        } else {
            assert(own_pages + Seq::<ObjectId>::empty() =~= own_pages);
        }
    }
    let mut k: usize = 0;
    while k < missing
        invariant
            k <= missing,
            missing <= room,
            room == u32::MAX - max_id,
            first == max_id + 1,
            own_pages.len() > 0,
            page == blank_page_value(values_of(media_box@)),
            document_max_id(*doc) == max_id + k,
            document_trailer(*doc) == document_trailer(*old(doc)),
            document_objects(*doc) == with_blank_pages(objects0, first, k as nat, page),
            chunk@ == padded_pages(own_pages, fresh_ids(first, k as int), before_last),
            k == 0 ==> *doc == *old(doc),
        decreases missing - k,
    {
        let id = create_blank_page(doc, media_box);
        proof {
            lemma_padding_step(own_pages, fresh_ids(first, k as int), id, before_last);
            assert(fresh_ids(first, k as int).push(id) =~= fresh_ids(first, k + 1));
        }
        place_blank(&mut chunk, id, before_last);
        k = k + 1;
    }
    Ok(booklet_order(&chunk, rtl))
}

/// Rewriting a stored dictionary as another dictionary changes no
/// identifier's resolution.
proof fn lemma_dictionary_rewrite_keeps_resolution(objects: Map<ObjectId, PdfValue>, s: ObjectId, v: PdfValue)
    requires
        objects.contains_key(s),
        objects[s] is Dictionary,
        v is Dictionary,
    ensures
        forall|x: ObjectId| #[trigger] resolve_in(objects.insert(s, v), x) == resolve_in(objects, x),
{
    assert(objects.insert(s, v).dom() =~= objects.dom());
    lemma_same_links_resolve(objects, objects.insert(s, v), Map::empty());
}

/// The rotation a page dictionary states: its `Rotate` entry when that is an
/// integer, 0 otherwise.
pub open spec fn rotation_of(entries: Map<Seq<u8>, PdfValue>) -> int {
    if entries.contains_key(key("Rotate")) {
        match entries[key("Rotate")] {
            PdfValue::Integer(r) => r as int,
            _ => 0,
        }
    } else {
        0
    }
}

/// `objects` after the page stored at `slot` is turned by half a turn, when
/// `slot` names a dictionary; unchanged otherwise.
pub open spec fn turn_page(objects: Map<ObjectId, PdfValue>, slot: Option<ObjectId>) -> Map<ObjectId, PdfValue> {
    match slot {
        Some(s) => if objects.contains_key(s) {
            match objects[s] {
                PdfValue::Dictionary(entries) => objects.insert(
                    s,
                    PdfValue::Dictionary(
                        entries.insert(
                            key("Rotate"),
                            PdfValue::Integer(half_turn_spec(rotation_of(entries)) as i64),
                        ),
                    ),
                ),
                _ => objects,
            }
        } else {
            objects
        },
        None => objects,
    }
}

/// Whether the page stored at `slot` can be turned: its rotation leaves room
/// for adding half a turn.
pub open spec fn turn_fits(objects: Map<ObjectId, PdfValue>, slot: Option<ObjectId>) -> bool {
    match slot {
        Some(s) => objects.contains_key(s) ==> match objects[s] {
            PdfValue::Dictionary(entries) => rotation_of(entries) <= i64::MAX - 180,
            _ => true,
        },
        None => true,
    }
}

/// `objects` after the pages at the back-side positions among the first `n`
/// of `pages` have been turned, in order; `resolve` maps a page to the
/// object that holds it.
pub open spec fn turned_objects(
    objects: Map<ObjectId, PdfValue>,
    resolve: spec_fn(ObjectId) -> Option<ObjectId>,
    pages: Seq<ObjectId>,
    n: nat,
) -> Map<ObjectId, PdfValue>
    decreases n,
{
    if n == 0 {
        objects
    } else {
        let before = turned_objects(objects, resolve, pages, (n - 1) as nat);
        if on_back_side(n - 1) {
            turn_page(before, resolve(pages[n - 1]))
        } else {
            before
        }
    }
}

/// Whether every turn among the first `n` of `pages` fits.
pub open spec fn turning_fits(
    objects: Map<ObjectId, PdfValue>,
    resolve: spec_fn(ObjectId) -> Option<ObjectId>,
    pages: Seq<ObjectId>,
    n: nat,
) -> bool
    decreases n,
{
    if n == 0 {
        true
    } else {
        turning_fits(objects, resolve, pages, (n - 1) as nat) && (on_back_side(n - 1) ==> turn_fits(
            turned_objects(objects, resolve, pages, (n - 1) as nat),
            resolve(pages[n - 1]),
        ))
    }
}

proof fn lemma_turning_fits_prefix(
    objects: Map<ObjectId, PdfValue>,
    resolve: spec_fn(ObjectId) -> Option<ObjectId>,
    pages: Seq<ObjectId>,
    m: nat,
    n: nat,
)
    requires
        m <= n,
        turning_fits(objects, resolve, pages, n),
    ensures
        turning_fits(objects, resolve, pages, m),
    decreases n,
{
    if m < n {
        lemma_turning_fits_prefix(objects, resolve, pages, m, (n - 1) as nat);
    }
}

/// How a document resolves page identifiers to the objects that hold them.
pub open spec fn resolver(doc: Document) -> spec_fn(ObjectId) -> Option<ObjectId> {
    |id: ObjectId| resolved_id(doc, id)
}

/// How an objects table resolves identifiers (see `resolve_in`).
pub open spec fn resolver_in(objects: Map<ObjectId, PdfValue>) -> spec_fn(ObjectId) -> Option<ObjectId> {
    |id: ObjectId| resolve_in(objects, id)
}

/// Turns by half a turn every page of a reordered booklet that lies on a
/// back side (positions whose pair index is odd), so that backs print the
/// right way up. Pages that are not dictionaries are left alone.
/// Fails with `RotationOutOfRange` when a page's rotation is too large to add
/// half a turn to; the pages before it have then been turned.
pub fn turn_back_pages(doc: &mut Document, pages: &Vec<ObjectId>) -> (r: Result<(), BookletError>)
    ensures
        r is Ok <==> turning_fits(document_objects(*old(doc)), resolver(*old(doc)), pages@, pages@.len()),
        r is Ok ==> document_objects(*final(doc)) == turned_objects(
            document_objects(*old(doc)),
            resolver(*old(doc)),
            pages@,
            pages@.len(),
        ),
        r matches Err(e) ==> e == BookletError::RotationOutOfRange && exists|n: nat|
            n < pages@.len() && document_objects(*final(doc)) == turned_objects(
                document_objects(*old(doc)),
                resolver(*old(doc)),
                pages@,
                n,
            ),
        document_max_id(*final(doc)) == document_max_id(*old(doc)),
        document_trailer(*final(doc)) == document_trailer(*old(doc)),
        resolver(*final(doc)) == resolver(*old(doc)),
{
    let ghost objects0 = document_objects(*doc);
    let ghost resolve = resolver(*doc);
    let mut idx: usize = 0;
    while idx < pages.len()
        invariant
            idx <= pages@.len(),
            resolve == resolver(*old(doc)),
            objects0 == document_objects(*old(doc)),
            resolver(*doc) == resolve,
            document_max_id(*doc) == document_max_id(*old(doc)),
            document_trailer(*doc) == document_trailer(*old(doc)),
            turning_fits(objects0, resolve, pages@, idx as nat),
            document_objects(*doc) == turned_objects(objects0, resolve, pages@, idx as nat),
        decreases pages@.len() - idx,
    {
        let ghost before = document_objects(*doc);
        let ghost before_doc = *doc;
        if reordered_page_turned(idx) {
            let page = pages[idx];
            match dictionary_for_update(doc, page) {
                Some(dict) => {
                    let current = match dictionary_entry(&*dict, "Rotate") {
                        Some(entry) => match integer_value(entry) {
                            Some(r) => r,
                            None => 0,
                        },
                        None => 0,
                    };
                    if current > i64::MAX - 180 {
                        proof {
                            assert(!turning_fits(objects0, resolve, pages@, (idx + 1) as nat));
                            if turning_fits(objects0, resolve, pages@, pages@.len()) {
                                lemma_turning_fits_prefix(objects0, resolve, pages@, (idx + 1) as nat, pages@.len());
                            }
                            let s = resolved_id(before_doc, page)->Some_0;
                            lemma_dictionary_rewrite_keeps_resolution(before, s, document_objects(*doc)[s]);
                            assert(resolver(*doc) =~= resolve);
                        }
                        return Err(BookletError::RotationOutOfRange);
                    }
                    set_entry(dict, "Rotate", integer_object(half_turn(current)));
                    proof {
                        let s = resolved_id(before_doc, page)->Some_0;
                        lemma_dictionary_rewrite_keeps_resolution(before, s, document_objects(*doc)[s]);
                    }
                },
                None => {},
            }
        }
        proof {
            assert(resolver(*doc) =~= resolve);
        }
        idx = idx + 1;
    }
    Ok(())
}

/// The `Pages` dictionary of a page tree whose leaves are `pages`, in order.
pub open spec fn page_tree_value(pages: Seq<ObjectId>) -> PdfValue {
    PdfValue::Dictionary(
        no_entries().insert(key("Type"), PdfValue::Name(key("Pages"))).insert(
            key("Count"),
            PdfValue::Integer(pages.len() as i64),
        ).insert(key("Kids"), PdfValue::Array(pages.map_values(|id: ObjectId| PdfValue::Reference(id)))),
    )
}

/// `objects` after the dictionary stored at `slot` gets `parent` as its
/// `Parent`; unchanged when `slot` names no dictionary.
pub open spec fn set_parent(
    objects: Map<ObjectId, PdfValue>,
    slot: Option<ObjectId>,
    parent: ObjectId,
) -> Map<ObjectId, PdfValue> {
    match slot {
        Some(s) => if objects.contains_key(s) {
            match objects[s] {
                PdfValue::Dictionary(entries) => objects.insert(
                    s,
                    PdfValue::Dictionary(entries.insert(key("Parent"), PdfValue::Reference(parent))),
                ),
                _ => objects,
            }
        } else {
            objects
        },
        None => objects,
    }
}

/// `objects` after the first `n` of `pages` get `parent` as their `Parent`,
/// in order.
pub open spec fn with_parent(
    objects: Map<ObjectId, PdfValue>,
    resolve: spec_fn(ObjectId) -> Option<ObjectId>,
    pages: Seq<ObjectId>,
    n: nat,
    parent: ObjectId,
) -> Map<ObjectId, PdfValue>
    decreases n,
{
    if n == 0 {
        objects
    } else {
        set_parent(with_parent(objects, resolve, pages, (n - 1) as nat, parent), resolve(pages[n - 1]), parent)
    }
}

/// The identifier that the next object added to `doc` gets.
pub open spec fn next_object_id(doc: Document) -> ObjectId {
    ((document_max_id(doc) + 1) as u32, 0u16)
}

/// `after` is `before` with a page tree node for `pages` added under `tree`
/// and made the `Parent` of every page in `pages` that is a dictionary.
pub open spec fn page_tree_built(before: Document, after: Document, pages: Seq<ObjectId>, tree: ObjectId) -> bool {
    &&& document_max_id(before) < u32::MAX
    &&& tree == next_object_id(before)
    &&& document_max_id(after) == document_max_id(before) + 1
    &&& document_trailer(after) == document_trailer(before)
    &&& document_objects(after) == with_parent(
        document_objects(before).insert(tree, page_tree_value(pages)),
        resolver(after),
        pages,
        pages.len(),
        tree,
    )
}

/// Adds a page tree node (`Type` `Pages`, `Count`, `Kids` referring to
/// `page_ids` in order) as a new object and makes it the `Parent` of every
/// page in `page_ids` that is a dictionary. Returns the node's identifier.
/// Fails with `ObjectNumbersExhausted`, leaving the document as it was, when
/// no object number is left.
pub fn recreate_pages_tree(doc: &mut Document, page_ids: &[ObjectId]) -> (r: Result<ObjectId, BookletError>)
    requires
        page_ids@.len() <= i64::MAX,
    ensures
        r is Ok <==> document_max_id(*old(doc)) < u32::MAX,
        r matches Err(e) ==> e == BookletError::ObjectNumbersExhausted && *final(doc) == *old(doc),
        r matches Ok(tree) ==> page_tree_built(*old(doc), *final(doc), page_ids@, tree),
{
    if last_object_number(doc) == u32::MAX {
        return Err(BookletError::ObjectNumbersExhausted);
    }
    let mut pages_dict = new_dictionary();
    set_entry(&mut pages_dict, "Type", name_object("Pages"));
    set_entry(&mut pages_dict, "Count", integer_object(page_ids.len() as i64));
    let mut kids: Vec<Object> = Vec::new();
    let mut i: usize = 0;
    while i < page_ids.len()
        invariant
            i <= page_ids@.len(),
            kids@.len() == i,
            forall|k: int| 0 <= k < i ==> object_value(#[trigger] kids@[k]) == PdfValue::Reference(page_ids@[k]),
        decreases page_ids@.len() - i,
    {
        kids.push(reference_object(page_ids[i]));
        i = i + 1;
    }
    assert(values_of(kids@) =~= page_ids@.map_values(|id: ObjectId| PdfValue::Reference(id)));
    set_entry(&mut pages_dict, "Kids", array_object(kids));
    let pages_id = insert_object(doc, dictionary_object(pages_dict));
    let ghost objects1 = document_objects(*doc);
    let ghost resolve = resolver(*doc);
    let ghost built = *doc;
    assert(objects1 == document_objects(*old(doc)).insert(pages_id, page_tree_value(page_ids@)));
    let mut j: usize = 0;
    while j < page_ids.len()
        invariant
            j <= page_ids@.len(),
            resolver(*doc) == resolve,
            document_max_id(*doc) == pages_id.0,
            pages_id.0 == document_max_id(*old(doc)) + 1,
            document_trailer(*doc) == document_trailer(*old(doc)),
            document_objects(*doc) == with_parent(objects1, resolve, page_ids@, j as nat, pages_id),
        decreases page_ids@.len() - j,
    {
        let ghost before_doc = *doc;
        match dictionary_for_update(doc, page_ids[j]) {
            Some(dict) => {
                set_entry(dict, "Parent", reference_object(pages_id));
                proof {
                    let s = resolved_id(before_doc, page_ids@[j as int])->Some_0;
                    lemma_dictionary_rewrite_keeps_resolution(document_objects(before_doc), s, document_objects(*doc)[s]);
                }
            },
            None => {},
        }
        proof {
            assert(resolver(*doc) =~= resolve);
        }
        j = j + 1;
    }
    Ok(pages_id)
}

/// Where the catalog is: the object that the trailer's `Root` refers to,
/// or the error that finding it meets.
pub open spec fn catalog_lookup(doc: Document) -> Result<ObjectId, BookletError> {
    catalog_lookup_in(document_objects(doc), document_trailer(doc))
}

/// `catalog_lookup` over an objects table and a trailer.
pub open spec fn catalog_lookup_in(
    objects: Map<ObjectId, PdfValue>,
    trailer: Map<Seq<u8>, PdfValue>,
) -> Result<ObjectId, BookletError> {
    if !trailer.contains_key(key("Root")) {
        Err(BookletError::NoRootInTrailer)
    } else {
        match trailer[key("Root")] {
            PdfValue::Reference(root) => match resolve_in(objects, root) {
                Some(s) => if objects.contains_key(s) && objects[s] is Dictionary {
                    Ok(s)
                } else {
                    Err(BookletError::CatalogNotDictionary)
                },
                None => Err(BookletError::CatalogNotDictionary),
            },
            _ => Err(BookletError::RootNotReference),
        }
    }
}

/// `after` is `before` with the catalog's `Pages` entry pointing at `tree`.
pub open spec fn catalog_pointed(before: Document, after: Document, tree: ObjectId) -> bool {
    &&& catalog_lookup(before) is Ok
    &&& document_objects(before)[catalog_lookup(before)->Ok_0] matches PdfValue::Dictionary(entries)
        && document_objects(after) == document_objects(before).insert(
        catalog_lookup(before)->Ok_0,
        PdfValue::Dictionary(entries.insert(key("Pages"), PdfValue::Reference(tree))),
    )
    &&& document_max_id(after) == document_max_id(before)
    &&& document_trailer(after) == document_trailer(before)
    &&& resolver(after) == resolver(before)
}

/// Points the catalog's `Pages` entry at `pages_id`.
/// Fails with `NoRootInTrailer`, `RootNotReference` or `CatalogNotDictionary`
/// (see `catalog_lookup`), leaving the document as it was.
pub fn update_catalog(doc: &mut Document, pages_id: ObjectId) -> (r: Result<(), BookletError>)
    ensures
        r is Ok <==> catalog_lookup(*old(doc)) is Ok,
        r is Ok ==> catalog_pointed(*old(doc), *final(doc), pages_id),
        r matches Err(e) ==> catalog_lookup(*old(doc)) == Err::<ObjectId, BookletError>(e) && *final(doc)
            == *old(doc),
        resolver(*final(doc)) == resolver(*old(doc)),
{
    let catalog_id = match dictionary_entry(trailer_of(doc), "Root") {
        Some(root) => match reference_value(root) {
            Some(id) => id,
            None => {
                return Err(BookletError::RootNotReference);
            },
        },
        None => {
            return Err(BookletError::NoRootInTrailer);
        },
    };
    match dictionary_for_update(doc, catalog_id) {
        Some(catalog) => {
            set_entry(catalog, "Pages", reference_object(pages_id));
            proof {
                let s = resolved_id(*old(doc), catalog_id)->Some_0;
                lemma_dictionary_rewrite_keeps_resolution(document_objects(*old(doc)), s, document_objects(*doc)[s]);
                assert(resolver(*doc) =~= resolver(*old(doc)));
            }
            Ok(())
        },
        None => Err(BookletError::CatalogNotDictionary),
    }
}

/// Pointing the catalog at a page tree and then at another leaves the
/// document as pointing it at the second one alone: the last call wins.
pub proof fn lemma_catalog_last_pointer_wins(
    d0: Document,
    d1: Document,
    d2: Document,
    first: ObjectId,
    second: ObjectId,
)
    requires
        catalog_pointed(d0, d1, first),
        catalog_pointed(d1, d2, second),
    ensures
        catalog_pointed(d0, d2, second),
{
    let s = catalog_lookup(d0)->Ok_0;
    if let PdfValue::Reference(root) = document_trailer(d0)[key("Root")] {
        assert(resolver(d1)(root) == resolver(d0)(root));
        assert(resolved_id(d1, root) == resolved_id(d0, root));
    }
    assert(catalog_lookup(d1) == catalog_lookup(d0));
    if let PdfValue::Dictionary(entries) = document_objects(d0)[s] {
        assert(document_objects(d2) =~= document_objects(d0).insert(
            s,
            PdfValue::Dictionary(entries.insert(key("Pages"), PdfValue::Reference(second))),
        )) by {
            assert(entries.insert(key("Pages"), PdfValue::Reference(first)).insert(key("Pages"), PdfValue::Reference(second))
                =~= entries.insert(key("Pages"), PdfValue::Reference(second)));
        }
    }
}

/// Pointing the catalog at the same page tree a second time changes nothing;
/// and when the catalog cannot be found, it cannot be found the second time
/// either.
pub proof fn lemma_catalog_pointing_idempotent(d0: Document, d1: Document, d2: Document, tree: ObjectId)
    requires
        catalog_pointed(d0, d1, tree),
        catalog_pointed(d1, d2, tree),
    ensures
        document_objects(d2) == document_objects(d1),
        document_trailer(d2) == document_trailer(d1),
        document_max_id(d2) == document_max_id(d1),
        resolver(d2) == resolver(d1),
{
    lemma_catalog_last_pointer_wins(d0, d1, d2, tree, tree);
}

/// `after` is `before` without the objects that `pruned_ids` lists.
pub open spec fn unreferenced_dropped(before: Document, after: Document) -> bool {
    &&& document_objects(after) == document_objects(before).remove_keys(pruned_ids(before).to_set())
    &&& document_max_id(after) == document_max_id(before)
    &&& document_trailer(after) == document_trailer(before)
}

/// What making `pages` the page order of `before` gives, step by step: a new
/// page tree (`page_tree_built`), the catalog pointed at it
/// (`catalog_pointed`), the unreferenced objects dropped
/// (`unreferenced_dropped`). `result` is the tree's identifier, or the error
/// of the step that failed; `after` is the document that is left.
pub open spec fn installs_page_order(
    before: Document,
    after: Document,
    pages: Seq<ObjectId>,
    result: Result<ObjectId, BookletError>,
) -> bool {
    if document_max_id(before) == u32::MAX {
        result == Err::<ObjectId, BookletError>(BookletError::ObjectNumbersExhausted) && after == before
    } else {
        exists|built: Document|
            #[trigger] page_tree_built(before, built, pages, next_object_id(before)) && match catalog_lookup(built) {
                Ok(_) => result == Ok::<ObjectId, BookletError>(next_object_id(before)) && exists|pointed: Document|
                    #[trigger] catalog_pointed(built, pointed, next_object_id(before)) && unreferenced_dropped(pointed, after),
                Err(e) => result == Err::<ObjectId, BookletError>(e) && after == built,
            }
    }
}

/// Two objects tables that store objects under the same identifiers, hold
/// the same references, and hold dictionaries in the same places.
pub open spec fn same_links(a: Map<ObjectId, PdfValue>, b: Map<ObjectId, PdfValue>) -> bool {
    &&& a.dom() == b.dom()
    &&& forall|x: ObjectId|
        #![trigger a[x]]
        #![trigger b[x]]
        a.contains_key(x) ==> {
            &&& (a[x] is Reference <==> b[x] is Reference)
            &&& (a[x] is Reference ==> a[x] == b[x])
            &&& (a[x] is Dictionary <==> b[x] is Dictionary)
        }
}

proof fn lemma_chase_same_links(a: Map<ObjectId, PdfValue>, b: Map<ObjectId, PdfValue>, current: ObjectId, hops: int)
    requires
        same_links(a, b),
        a.contains_key(current),
    ensures
        chase(a, current, hops) == chase(b, current, hops),
    decreases 128 - hops,
{
    assert(b.contains_key(current));
    if a[current] is Reference {
        let next = a[current]->Reference_0;
        assert(b[current] == a[current]);
        if a.contains_key(next) && hops + 1 <= 128 {
            lemma_chase_same_links(a, b, next, hops + 1);
        }
        assert(a.contains_key(next) == b.contains_key(next));
    } else {
        assert(!(b[current] is Reference));
    }
}

/// Tables with the same links resolve identifiers alike and find the same
/// catalog.
pub proof fn lemma_same_links_resolve(
    a: Map<ObjectId, PdfValue>,
    b: Map<ObjectId, PdfValue>,
    trailer: Map<Seq<u8>, PdfValue>,
)
    requires
        same_links(a, b),
    ensures
        forall|x: ObjectId| #[trigger] resolve_in(a, x) == resolve_in(b, x),
        catalog_lookup_in(a, trailer) == catalog_lookup_in(b, trailer),
{
    assert forall|x: ObjectId| #[trigger] resolve_in(a, x) == resolve_in(b, x) by {
        assert(a.contains_key(x) == b.contains_key(x));
        if a.contains_key(x) {
            lemma_chase_same_links(a, b, x, 0);
        }
    }
    if trailer.contains_key(key("Root")) {
        if let PdfValue::Reference(root) = trailer[key("Root")] {
            assert(resolve_in(a, root) == resolve_in(b, root));
            if let Some(s) = resolve_in(a, root) {
                assert(a.contains_key(s) == b.contains_key(s));
            }
        }
    }
}

proof fn lemma_same_links_transitive(a: Map<ObjectId, PdfValue>, b: Map<ObjectId, PdfValue>, c: Map<ObjectId, PdfValue>)
    requires
        same_links(a, b),
        same_links(b, c),
    ensures
        same_links(a, c),
{
    assert forall|x: ObjectId| a.contains_key(x) implies {
        &&& (a[x] is Reference <==> c[x] is Reference)
        &&& (a[x] is Reference ==> a[x] == c[x])
        &&& (a[x] is Dictionary <==> c[x] is Dictionary)
    } by {
        assert(b.contains_key(x));
    }
}

proof fn lemma_with_parent_same_links(
    objects: Map<ObjectId, PdfValue>,
    resolve: spec_fn(ObjectId) -> Option<ObjectId>,
    pages: Seq<ObjectId>,
    n: nat,
    parent: ObjectId,
)
    ensures
        same_links(objects, with_parent(objects, resolve, pages, n, parent)),
    decreases n,
{
    if n == 0 {
        assert(objects.dom() =~= objects.dom());
    } else {
        lemma_with_parent_same_links(objects, resolve, pages, (n - 1) as nat, parent);
        let before = with_parent(objects, resolve, pages, (n - 1) as nat, parent);
        let after = set_parent(before, resolve(pages[n - 1]), parent);
        assert(same_links(before, after)) by {
            if let Some(s) = resolve(pages[n - 1]) {
                if before.contains_key(s) && before[s] is Dictionary {
                    assert(after.dom() =~= before.dom());
                }
            }
        }
        lemma_same_links_transitive(objects, before, after);
    }
}

proof fn lemma_turned_same_links(
    objects: Map<ObjectId, PdfValue>,
    resolve: spec_fn(ObjectId) -> Option<ObjectId>,
    pages: Seq<ObjectId>,
    n: nat,
)
    ensures
        same_links(objects, turned_objects(objects, resolve, pages, n)),
    decreases n,
{
    if n == 0 {
        assert(objects.dom() =~= objects.dom());
    } else {
        lemma_turned_same_links(objects, resolve, pages, (n - 1) as nat);
        let before = turned_objects(objects, resolve, pages, (n - 1) as nat);
        let after = turn_page(before, resolve(pages[n - 1]));
        assert(same_links(before, after)) by {
            if let Some(s) = resolve(pages[n - 1]) {
                if before.contains_key(s) && before[s] is Dictionary {
                    assert(after.dom() =~= before.dom());
                }
            }
        }
        if on_back_side(n - 1) {
            lemma_same_links_transitive(objects, before, after);
        }
    }
}

proof fn lemma_blank_pages_extend(objects: Map<ObjectId, PdfValue>, first: int, count: nat, page: PdfValue)
    requires
        forall|i: int| 0 <= i < count ==> !#[trigger] objects.contains_key(((first + i) as u32, 0u16)),
    ensures
        objects.submap_of(with_blank_pages(objects, first, count, page)),
    decreases count,
{
    if count > 0 {
        lemma_blank_pages_extend(objects, first, (count - 1) as nat, page);
        let i = count - 1;
        let k = ((first + i) as u32, 0u16);
        assert(!objects.contains_key(k));
        let prev = with_blank_pages(objects, first, (count - 1) as nat, page);
        let next = with_blank_pages(objects, first, count, page);
        assert(next == prev.insert(k, page));
        assert forall|x: ObjectId| #[trigger] objects.dom().contains(x) implies next.dom().contains(x) && objects[x]
            == next[x] by {
            assert(prev.dom().contains(x));
            assert(x != k);
        }
    }
}

proof fn lemma_chase_in_larger_table(
    a: Map<ObjectId, PdfValue>,
    b: Map<ObjectId, PdfValue>,
    current: ObjectId,
    hops: int,
)
    requires
        a.submap_of(b),
        a.contains_key(current),
        chase(a, current, hops) is Some,
    ensures
        chase(b, current, hops) == chase(a, current, hops),
    decreases 128 - hops,
{
    assert(a.dom().contains(current) && b.dom().contains(current));
    assert(b[current] == a[current]);
    if let PdfValue::Reference(next) = a[current] {
        if a.contains_key(next) {
            assert(a.dom().contains(next) && b.dom().contains(next));
        }
        if a.contains_key(next) && hops + 1 <= 128 {
            lemma_chase_in_larger_table(a, b, next, hops + 1);
        }
    }
}

/// Blank pages added under object numbers that no stored object has, after
/// the backs of some pages were turned or not, leave every identifier that
/// resolved before resolving to the same object.
pub proof fn lemma_blank_pages_keep_resolution(
    objects: Map<ObjectId, PdfValue>,
    pages: Seq<ObjectId>,
    first: int,
    missing: nat,
    blank: PdfValue,
    id: ObjectId,
)
    requires
        forall|i: int| 0 <= i < missing ==> !#[trigger] objects.contains_key(((first + i) as u32, 0u16)),
        resolve_in(objects, id) is Some,
    ensures
        resolve_in(with_blank_pages(objects, first, missing, blank), id) == resolve_in(objects, id),
        resolve_in(
            with_blank_pages(turned_objects(objects, resolver_in(objects), pages, pages.len()), first, missing, blank),
            id,
        ) == resolve_in(objects, id),
{
    lemma_blank_pages_extend(objects, first, missing, blank);
    lemma_chase_in_larger_table(objects, with_blank_pages(objects, first, missing, blank), id, 0);
    let turned = turned_objects(objects, resolver_in(objects), pages, pages.len());
    lemma_turned_same_links(objects, resolver_in(objects), pages, pages.len());
    lemma_same_links_resolve(objects, turned, Map::empty());
    assert forall|i: int| 0 <= i < missing implies !#[trigger] turned.contains_key(((first + i) as u32, 0u16)) by {
        assert(!objects.contains_key(((first + i) as u32, 0u16)));
    }
    lemma_blank_pages_extend(turned, first, missing, blank);
    assert(resolve_in(turned, id) == resolve_in(objects, id));
    lemma_chase_in_larger_table(turned, with_blank_pages(turned, first, missing, blank), id, 0);
}

proof fn lemma_entry_names_differ()
    ensures
        key("Parent") != key("Type"),
        key("Parent") != key("Kids"),
        key("Pages") != key("Type"),
        key("Pages") != key("Kids"),
{
    broadcast use vstd::string::is_ascii_spec_bytes;

    reveal_strlit("Parent");
    reveal_strlit("Type");
    reveal_strlit("Kids");
    reveal_strlit("Pages");
    assert(vstd::string::is_ascii("Parent"));
    assert(vstd::string::is_ascii("Type"));
    assert(vstd::string::is_ascii("Kids"));
    assert(vstd::string::is_ascii("Pages"));
    assert(key("Parent").len() == 6);
    assert(key("Type").len() == 4);
    assert(key("Kids").len() == 4);
    assert(key("Pages").len() == 5);
}

proof fn lemma_with_parent_keeps_entry(
    objects: Map<ObjectId, PdfValue>,
    resolve: spec_fn(ObjectId) -> Option<ObjectId>,
    pages: Seq<ObjectId>,
    n: nat,
    parent: ObjectId,
    x: ObjectId,
    name: Seq<u8>,
    entry: PdfValue,
)
    requires
        objects.contains_key(x),
        has_entry(objects[x], name, entry),
        name != key("Parent"),
    ensures
        with_parent(objects, resolve, pages, n, parent).contains_key(x),
        has_entry(with_parent(objects, resolve, pages, n, parent)[x], name, entry),
    decreases n,
{
    if n > 0 {
        lemma_with_parent_keeps_entry(objects, resolve, pages, (n - 1) as nat, parent, x, name, entry);
        let before = with_parent(objects, resolve, pages, (n - 1) as nat, parent);
        if let Some(s) = resolve(pages[n - 1]) {
            if s == x {
                if let PdfValue::Dictionary(entries) = before[x] {
                    assert(entries.insert(key("Parent"), PdfValue::Reference(parent))[name] == entries[name]);
                }
            }
        }
    }
}

/// A page tree built for `pages`, pointed at by a catalog that the trailer
/// refers to directly, and kept through pruning, lists `pages`.
proof fn lemma_installed_tree_is_flat(
    before: Document,
    built: Document,
    pointed: Document,
    after: Document,
    pages: Seq<ObjectId>,
    removed: Seq<ObjectId>,
)
    requires
        page_tree_built(before, built, pages, next_object_id(before)),
        catalog_pointed(built, pointed, next_object_id(before)),
        document_objects(after) == document_objects(pointed).remove_keys(removed.to_set()),
        document_trailer(after) == document_trailer(pointed),
        forall|path: Seq<PathStep>|
            #[trigger] reference_at(PdfValue::Dictionary(document_trailer(pointed)), path) is Some
                ==> !removed.contains(reference_at(PdfValue::Dictionary(document_trailer(pointed)), path)->Some_0),
        forall|x: ObjectId, path: Seq<PathStep>|
            document_objects(pointed).contains_key(x) && !removed.contains(x) && #[trigger] reference_at(
                document_objects(pointed)[x],
                path,
            ) is Some ==> !removed.contains(reference_at(document_objects(pointed)[x], path)->Some_0),
        pages.no_duplicates(),
        !pages.contains(next_object_id(before)),
        stored_as_pages(document_objects(before), pages),
        directly_stored_catalog(before),
    ensures
        flat_page_tree(after, pages),
{
    let tree = next_object_id(before);
    let o0 = document_objects(before);
    let inserted = o0.insert(tree, page_tree_value(pages));
    let b = document_objects(built);
    let p = document_objects(pointed);
    let f = document_objects(after);
    let trailer = document_trailer(before);
    let c = trailer[key("Root")]->Reference_0;
    let kids = PdfValue::Array(pages.map_values(|id: ObjectId| PdfValue::Reference(id)));
    let page_type = PdfValue::Name(key("Page"));
    lemma_entry_names_differ();
    lemma_with_parent_same_links(inserted, resolver(built), pages, pages.len(), tree);
    // the tree node keeps its kids, each page its type
    assert(has_entry(inserted[tree], key("Kids"), kids));
    lemma_with_parent_keeps_entry(inserted, resolver(built), pages, pages.len(), tree, tree, key("Kids"), kids);
    assert forall|i: int| 0 <= i < pages.len() implies #[trigger] b.contains_key(pages[i]) && has_entry(
        b[pages[i]],
        key("Type"),
        page_type,
    ) by {
        assert(o0.contains_key(pages[i]));
        assert(pages[i] != tree);
        lemma_with_parent_keeps_entry(inserted, resolver(built), pages, pages.len(), tree, pages[i], key("Type"), page_type);
    }
    // the catalog is found where the trailer points
    assert(inserted.contains_key(c) && inserted[c] is Dictionary);
    assert(b.contains_key(c) && b[c] is Dictionary);
    assert(resolve_in(b, c) == Some(c));
    assert(catalog_lookup(built) == Ok::<ObjectId, BookletError>(c));
    let entries_c = b[c]->Dictionary_0;
    assert(p == b.insert(c, PdfValue::Dictionary(entries_c.insert(key("Pages"), PdfValue::Reference(tree)))));
    assert(has_entry(p[tree], key("Kids"), kids));
    assert forall|i: int| 0 <= i < pages.len() implies #[trigger] p.contains_key(pages[i]) && has_entry(
        p[pages[i]],
        key("Type"),
        page_type,
    ) by {
        assert(b.contains_key(pages[i]));
    }
    // pruning keeps the catalog, the tree and the pages
    assert(document_trailer(pointed) == trailer);
    let to_root = seq![PathStep::Entry(key("Root"))];
    assert(to_root.subrange(1, 1) =~= Seq::<PathStep>::empty());
    assert(trailer[key("Root")] == PdfValue::Reference(c));
    assert(value_at(trailer[key("Root")], to_root.subrange(1, 1)) == Some(PdfValue::Reference(c)));
    assert(value_at(PdfValue::Dictionary(trailer), to_root) == Some(PdfValue::Reference(c)));
    assert(reference_at(PdfValue::Dictionary(trailer), to_root) == Some(c));
    assert(!removed.contains(c));
    let entries_p = entries_c.insert(key("Pages"), PdfValue::Reference(tree));
    assert(p[c] == PdfValue::Dictionary(entries_p));
    let to_tree = seq![PathStep::Entry(key("Pages"))];
    assert(to_tree.subrange(1, 1) =~= Seq::<PathStep>::empty());
    assert(entries_p[key("Pages")] == PdfValue::Reference(tree));
    assert(value_at(entries_p[key("Pages")], to_tree.subrange(1, 1)) == Some(PdfValue::Reference(tree)));
    assert(value_at(PdfValue::Dictionary(entries_p), to_tree) == Some(PdfValue::Reference(tree)));
    assert(reference_at(p[c], to_tree) == Some(tree));
    assert(p.contains_key(c));
    assert(!removed.contains(tree));
    assert(p.contains_key(tree));
    assert forall|i: int| 0 <= i < pages.len() implies #[trigger] f.contains_key(pages[i]) && has_entry(
        f[pages[i]],
        key("Type"),
        page_type,
    ) by {
        assert(p.contains_key(pages[i]));
        assert(pages.map_values(|id: ObjectId| PdfValue::Reference(id))[i] == PdfValue::Reference(pages[i]));
        let items = pages.map_values(|id: ObjectId| PdfValue::Reference(id));
        let to_page = seq![PathStep::Entry(key("Kids")), PathStep::Item(i as nat)];
        let rest = to_page.subrange(1, 2);
        assert(rest =~= seq![PathStep::Item(i as nat)]);
        assert(rest.subrange(1, 1) =~= Seq::<PathStep>::empty());
        assert(value_at(items[i], rest.subrange(1, 1)) == Some(PdfValue::Reference(pages[i])));
        assert(value_at(PdfValue::Array(items), rest) == Some(PdfValue::Reference(pages[i])));
        assert(reference_at(p[tree], to_page) == Some(pages[i]));
        assert(!removed.contains(pages[i]));
    }
    assert(f.contains_key(c) && f[c] == p[c]);
    assert(f.contains_key(tree) && f[tree] == p[tree]);
    assert(resolve_in(f, c) == Some(c));
    assert(resolve_in(f, tree) == Some(tree));
}

/// Whether the trailer's `Root` refers directly to a dictionary stored in
/// the document.
pub open spec fn directly_stored_catalog(doc: Document) -> bool {
    &&& document_trailer(doc).contains_key(key("Root"))
    &&& document_trailer(doc)[key("Root")] matches PdfValue::Reference(c) && document_objects(doc).contains_key(c)
        && document_objects(doc)[c] is Dictionary
}

/// What `install_page_order` returns for a document holding `objects`,
/// `trailer` and `max_id`: `ObjectNumbersExhausted` when no object number is
/// left, else the new tree's identifier when the catalog can be found once
/// the tree is added, else the error of looking for it.
pub open spec fn install_outcome(
    objects: Map<ObjectId, PdfValue>,
    trailer: Map<Seq<u8>, PdfValue>,
    max_id: u32,
    pages: Seq<ObjectId>,
) -> Result<ObjectId, BookletError> {
    if max_id == u32::MAX {
        Err(BookletError::ObjectNumbersExhausted)
    } else {
        let tree = ((max_id + 1) as u32, 0u16);
        match catalog_lookup_in(objects.insert(tree, page_tree_value(pages)), trailer) {
            Ok(_) => Ok(tree),
            Err(e) => Err(e),
        }
    }
}

/// Makes `page_ids` the pages of the document, in that order: builds a new
/// page tree for them, points the catalog at it and drops the objects that
/// are no longer referenced. Returns the tree's identifier. When the pages
/// are distinct page dictionaries stored under their own identifiers and
/// the trailer refers to the catalog directly, the document's page tree is
/// then one node listing them (`flat_page_tree`).
pub fn install_page_order(doc: &mut Document, page_ids: &[ObjectId]) -> (r: Result<ObjectId, BookletError>)
    requires
        page_ids@.len() <= i64::MAX,
    ensures
        installs_page_order(*old(doc), *final(doc), page_ids@, r),
        r == install_outcome(document_objects(*old(doc)), document_trailer(*old(doc)), document_max_id(*old(doc)), page_ids@),
        r matches Ok(tree) && page_ids@.no_duplicates() && !page_ids@.contains(tree) && stored_as_pages(
            document_objects(*old(doc)),
            page_ids@,
        ) && directly_stored_catalog(*old(doc)) ==> flat_page_tree(*final(doc), page_ids@),
{
    let tree = match recreate_pages_tree(doc, page_ids) {
        Ok(tree) => tree,
        Err(e) => {
            return Err(e);
        },
    };
    let ghost built = *doc;
    assert(page_tree_built(*old(doc), built, page_ids@, next_object_id(*old(doc))));
    proof {
        let inserted = document_objects(*old(doc)).insert(tree, page_tree_value(page_ids@));
        lemma_with_parent_same_links(inserted, resolver(built), page_ids@, page_ids@.len(), tree);
        lemma_same_links_resolve(inserted, document_objects(built), document_trailer(built));
        assert(catalog_lookup(built) == catalog_lookup_in(inserted, document_trailer(*old(doc))));
    }
    match update_catalog(doc, tree) {
        Ok(()) => {},
        Err(e) => {
            return Err(e);
        },
    }
    let ghost pointed = *doc;
    assert(catalog_pointed(built, pointed, next_object_id(*old(doc))));
    let removed = prune_unreferenced(doc);
    proof {
        if page_ids@.no_duplicates() && !page_ids@.contains(tree) && stored_as_pages(document_objects(*old(doc)), page_ids@)
            && directly_stored_catalog(*old(doc)) {
            lemma_installed_tree_is_flat(*old(doc), built, pointed, *doc, page_ids@, removed@);
        }
    }
    Ok(tree)
}

/// A copy of the document whose pages are `page_ids`, in that order (see
/// `install_page_order`); the document itself stays as it is.
pub fn booklet_document(doc: &Document, page_ids: &[ObjectId]) -> (r: Result<Document, BookletError>)
    requires
        page_ids@.len() <= i64::MAX,
    ensures
        r matches Ok(out) ==> installs_page_order(*doc, out, page_ids@, Ok(next_object_id(*doc))),
        r matches Err(e) ==> exists|left: Document| installs_page_order(*doc, left, page_ids@, Err(e)),
        r is Ok <==> install_outcome(document_objects(*doc), document_trailer(*doc), document_max_id(*doc), page_ids@) is Ok,
        r matches Err(e) ==> install_outcome(document_objects(*doc), document_trailer(*doc), document_max_id(*doc), page_ids@)
            == Err::<ObjectId, BookletError>(e),
        r matches Ok(out) ==> (page_ids@.no_duplicates() && !page_ids@.contains(next_object_id(*doc)) && stored_as_pages(
            document_objects(*doc),
            page_ids@,
        ) && directly_stored_catalog(*doc) ==> flat_page_tree(out, page_ids@)),
{
    let mut copy = copy_document(doc);
    let ghost fresh_copy = copy;
    match install_page_order(&mut copy, page_ids) {
        Ok(_) => {
            proof {
                lemma_install_depends_on_contents(fresh_copy, *doc, copy, page_ids@, Ok(next_object_id(*doc)));
            }
            Ok(copy)
        },
        Err(e) => {
            proof {
                if document_max_id(*doc) == u32::MAX {
                    assert(installs_page_order(*doc, *doc, page_ids@, Err(e)));
                } else {
                    lemma_install_depends_on_contents(fresh_copy, *doc, copy, page_ids@, Err(e));
                }
            }
            Err(e)
        },
    }
}

proof fn lemma_install_depends_on_contents(
    a: Document,
    b: Document,
    after: Document,
    pages: Seq<ObjectId>,
    result: Result<ObjectId, BookletError>,
)
    requires
        document_objects(a) == document_objects(b),
        document_trailer(a) == document_trailer(b),
        document_max_id(a) == document_max_id(b),
        document_max_id(a) < u32::MAX,
        installs_page_order(a, after, pages, result),
    ensures
        installs_page_order(b, after, pages, result),
{
    {
        let built = choose|built: Document|
            #[trigger] page_tree_built(a, built, pages, next_object_id(a)) && match catalog_lookup(built) {
                Ok(_) => result == Ok::<ObjectId, BookletError>(next_object_id(a)) && exists|pointed: Document|
                    #[trigger] catalog_pointed(built, pointed, next_object_id(a)) && unreferenced_dropped(pointed, after),
                Err(e) => result == Err::<ObjectId, BookletError>(e) && after == built,
            };
        assert(page_tree_built(b, built, pages, next_object_id(b)));
    }
}

/// A booklet as `arrange_booklet` prints it holds exactly its own pages of
/// the document and its new blank pages, each once, and is as long as the
/// booklet size; only the last booklet gets blank pages.
pub proof fn lemma_arranged_booklet_holds_its_pages(
    pages: Seq<ObjectId>,
    per: int,
    index: int,
    first_blank: int,
    last_page_back: bool,
    rtl: bool,
)
    requires
        per > 0,
        per % 2 == 0,
        0 <= index < booklet_count_spec(pages.len() as int, per),
    ensures
        ({
            let n = pages.len() as int;
            let own = pages.subrange(booklet_start(per, index), booklet_end(n, per, index));
            let blanks = fresh_ids(first_blank, blanks_needed(n, per, index));
            let order = booklet_order_spec(
                padded_pages(own, blanks, blanks_before_last(n, per, index, last_page_back)),
                rtl,
            );
            &&& order.len() == per
            &&& order.to_multiset() == own.to_multiset().add(blanks.to_multiset())
            &&& index < booklet_count_spec(n, per) - 1 ==> blanks.len() == 0
        }),
{
    let n = pages.len() as int;
    assert(n > 0) by (nonlinear_arith)
        requires index < (n + per - 1) / per, index >= 0, per > 0, n >= 0;
    lemma_booklets_partition_pages(n, per);
    let own = pages.subrange(booklet_start(per, index), booklet_end(n, per, index));
    let blanks = fresh_ids(first_blank, blanks_needed(n, per, index));
    let before_last = blanks_before_last(n, per, index, last_page_back);
    assert(booklet_start(per, index) < booklet_end(n, per, index));
    assert(booklet_end(n, per, index) - booklet_start(per, index) <= per) by (nonlinear_arith)
        requires
            booklet_end(n, per, index) == (if index * per + per <= n { index * per + per } else { n }),
            booklet_start(per, index) == index * per,
            index * per < n;
    lemma_padding_keeps_pages(own, blanks, before_last);
    lemma_booklet_order_is_permutation(padded_pages(own, blanks, before_last), rtl);
}

/// Booklet `index` in printing order, its blank pages numbered from
/// `first_blank` on (what `arrange_booklet` returns).
pub open spec fn booklet_pages_spec(
    pages: Seq<ObjectId>,
    per: int,
    index: int,
    first_blank: int,
    last_page_back: bool,
    rtl: bool,
) -> Seq<ObjectId> {
    let n = pages.len() as int;
    booklet_order_spec(
        padded_pages(
            pages.subrange(booklet_start(per, index), booklet_end(n, per, index)),
            fresh_ids(first_blank, blanks_needed(n, per, index)),
            blanks_before_last(n, per, index, last_page_back),
        ),
        rtl,
    )
}

/// The first `k` booklets in printing order, one after the other.
pub open spec fn joined_booklets(
    pages: Seq<ObjectId>,
    per: int,
    first_blank: int,
    last_page_back: bool,
    rtl: bool,
    k: nat,
) -> Seq<ObjectId>
    decreases k,
{
    if k == 0 {
        Seq::empty()
    } else {
        joined_booklets(pages, per, first_blank, last_page_back, rtl, (k - 1) as nat) + booklet_pages_spec(
            pages,
            per,
            k - 1,
            first_blank,
            last_page_back,
            rtl,
        )
    }
}

/// The first `k` joined booklets hold the pages of the first `k` booklets'
/// ranges, each once, and the blanks of the last booklet once it is among
/// them; every booklet is `per` pages long.
proof fn lemma_joined_prefix(
    pages: Seq<ObjectId>,
    per: int,
    first_blank: int,
    last_page_back: bool,
    rtl: bool,
    k: nat,
)
    requires
        per > 0,
        per % 2 == 0,
        1 <= k <= booklet_count_spec(pages.len() as int, per),
    ensures
        ({
            let n = pages.len() as int;
            let count = booklet_count_spec(n, per);
            let joined = joined_booklets(pages, per, first_blank, last_page_back, rtl, k);
            &&& joined.len() == k * per
            &&& joined.to_multiset() == pages.subrange(0, booklet_end(n, per, k - 1)).to_multiset().add(
                fresh_ids(first_blank, blanks_needed(n, per, k - 1)).to_multiset(),
            )
            &&& k < count ==> blanks_needed(n, per, k - 1) == 0
        }),
    decreases k,
{
    broadcast use vstd::seq_lib::group_to_multiset_ensures, vstd::multiset::group_multiset_axioms;

    let n = pages.len() as int;
    let i = k - 1;
    assert(n > 0) by (nonlinear_arith)
        requires k <= (n + per - 1) / per, k >= 1, per > 0, n >= 0;
    lemma_booklets_partition_pages(n, per);
    lemma_arranged_booklet_holds_its_pages(pages, per, i, first_blank, last_page_back, rtl);
    let own = pages.subrange(booklet_start(per, i), booklet_end(n, per, i));
    let blanks = fresh_ids(first_blank, blanks_needed(n, per, i));
    let last = booklet_pages_spec(pages, per, i, first_blank, last_page_back, rtl);
    assert(fresh_ids(first_blank, 0) =~= Seq::<ObjectId>::empty());
    assert(last.len() == per);
    if k == 1 {
        assert(joined_booklets(pages, per, first_blank, last_page_back, rtl, 0) + last =~= last);
        assert(booklet_start(per, 0) == 0);
        assert(k * per == per) by (nonlinear_arith)
            requires k == 1;
    } else {
        lemma_joined_prefix(pages, per, first_blank, last_page_back, rtl, (k - 1) as nat);
        let before = joined_booklets(pages, per, first_blank, last_page_back, rtl, (k - 1) as nat);
        assert(booklet_end(n, per, i - 1) == booklet_start(per, i));
        assert(blanks_needed(n, per, i - 1) == 0);
        vstd::seq_lib::lemma_multiset_commutative(before, last);
        let head = pages.subrange(0, booklet_start(per, i));
        assert(pages.subrange(0, booklet_end(n, per, i)) =~= head + own);
        vstd::seq_lib::lemma_multiset_commutative(head, own);
        assert((k - 1) * per + per == k * per) by (nonlinear_arith);
        assert(before.len() == (k - 1) * per);
        assert(joined_booklets(pages, per, first_blank, last_page_back, rtl, k) == before + last);
    }
}

/// All booklets joined hold every page of the document exactly once, and the
/// blank pages of the last booklet once each: `count * per` pages in all.
pub proof fn lemma_joined_booklets_hold_every_page_once(
    pages: Seq<ObjectId>,
    per: int,
    first_blank: int,
    last_page_back: bool,
    rtl: bool,
)
    requires
        pages.len() > 0,
        per > 0,
        per % 2 == 0,
    ensures
        ({
            let n = pages.len() as int;
            let count = booklet_count_spec(n, per);
            let joined = joined_booklets(pages, per, first_blank, last_page_back, rtl, count as nat);
            &&& joined.len() == count * per
            &&& blanks_needed(n, per, count - 1) == count * per - n
            &&& joined.to_multiset() == pages.to_multiset().add(
                fresh_ids(first_blank, count * per - n).to_multiset(),
            )
        }),
{
    let n = pages.len() as int;
    lemma_booklets_partition_pages(n, per);
    let count = booklet_count_spec(n, per);
    lemma_joined_prefix(pages, per, first_blank, last_page_back, rtl, count as nat);
    assert(pages.subrange(0, n) =~= pages);
    assert((count - 1) * per + per == count * per) by (nonlinear_arith);
}

proof fn lemma_turned_objects_prefix(
    objects: Map<ObjectId, PdfValue>,
    resolve: spec_fn(ObjectId) -> Option<ObjectId>,
    a: Seq<ObjectId>,
    b: Seq<ObjectId>,
    n: nat,
)
    requires
        n <= a.len(),
        n <= b.len(),
        a.take(n as int) == b.take(n as int),
    ensures
        turned_objects(objects, resolve, a, n) == turned_objects(objects, resolve, b, n),
        turning_fits(objects, resolve, a, n) == turning_fits(objects, resolve, b, n),
    decreases n,
{
    if n > 0 {
        assert(a.take(n - 1) =~= a.take(n as int).take(n - 1));
        assert(b.take(n - 1) =~= b.take(n as int).take(n - 1));
        assert(a[n - 1] == a.take(n as int)[n - 1]);
        assert(b[n - 1] == b.take(n as int)[n - 1]);
        lemma_turned_objects_prefix(objects, resolve, a, b, (n - 1) as nat);
    }
}

/// Turning the backs of `a + b` is turning those of `a`, then those of `b`,
/// when `a` is a whole number of sheets.
#[verifier::spinoff_prover]
#[verifier::rlimit(40)]
proof fn lemma_turned_objects_concat(
    objects: Map<ObjectId, PdfValue>,
    resolve: spec_fn(ObjectId) -> Option<ObjectId>,
    a: Seq<ObjectId>,
    b: Seq<ObjectId>,
    m: nat,
)
    requires
        a.len() % 4 == 0,
        m <= b.len(),
    ensures
        turned_objects(objects, resolve, a + b, a.len() + m) == turned_objects(
            turned_objects(objects, resolve, a, a.len()),
            resolve,
            b,
            m,
        ),
        turning_fits(objects, resolve, a + b, a.len() + m) == (turning_fits(objects, resolve, a, a.len())
            && turning_fits(turned_objects(objects, resolve, a, a.len()), resolve, b, m)),
    decreases m,
{
    if m == 0 {
        assert((a + b).take(a.len() as int) =~= a.take(a.len() as int));
        lemma_turned_objects_prefix(objects, resolve, a + b, a, a.len());
    } else {
        lemma_turned_objects_concat(objects, resolve, a, b, (m - 1) as nat);
        let j = a.len() + m - 1;
        assert((a + b)[j] == b[m - 1]);
        assert(on_back_side(j) == on_back_side(m - 1)) by {
            let q = a.len() / 4;
            assert(a.len() == 4 * q);
            assert(j / 2 == 2 * q + (m - 1) / 2);
        }
    }
}

proof fn lemma_blanks_after_turns_keep_resolution(
    objects: Map<ObjectId, PdfValue>,
    turned: Seq<ObjectId>,
    flip_backs: bool,
    first: int,
    missing: int,
    blank: PdfValue,
)
    requires
        missing >= 0,
    ensures
        (forall|i: int| 0 <= i < missing ==> !#[trigger] objects.contains_key(((first + i) as u32, 0u16)))
            ==> forall|id: ObjectId| #[trigger] resolve_in(objects, id) is Some ==> resolve_in(
            with_blank_pages(
                if flip_backs { turned_objects(objects, resolver_in(objects), turned, turned.len()) } else { objects },
                first,
                missing as nat,
                blank,
            ),
            id,
        ) == resolve_in(objects, id),
{
    if forall|i: int| 0 <= i < missing ==> !#[trigger] objects.contains_key(((first + i) as u32, 0u16)) {
        assert forall|id: ObjectId| #[trigger] resolve_in(objects, id) is Some implies resolve_in(
            with_blank_pages(
                if flip_backs { turned_objects(objects, resolver_in(objects), turned, turned.len()) } else { objects },
                first,
                missing as nat,
                blank,
            ),
            id,
        ) == resolve_in(objects, id) by {
            lemma_blank_pages_keep_resolution(objects, turned, first, missing as nat, blank, id);
        }
    }
}

/// Whether the object stored under `x` is a page dictionary.
pub open spec fn is_stored_page(objects: Map<ObjectId, PdfValue>, x: ObjectId) -> bool {
    objects.contains_key(x) && has_entry(objects[x], key("Type"), PdfValue::Name(key("Page")))
}

proof fn lemma_turning_keeps_pages(
    objects: Map<ObjectId, PdfValue>,
    resolve: spec_fn(ObjectId) -> Option<ObjectId>,
    pages: Seq<ObjectId>,
    n: nat,
    x: ObjectId,
)
    requires
        is_stored_page(objects, x),
    ensures
        is_stored_page(turned_objects(objects, resolve, pages, n), x),
    decreases n,
{
    if n > 0 {
        lemma_turning_keeps_pages(objects, resolve, pages, (n - 1) as nat, x);
        let before = turned_objects(objects, resolve, pages, (n - 1) as nat);
        if let Some(s) = resolve(pages[n - 1]) {
            if s == x && before.contains_key(s) {
                if let PdfValue::Dictionary(entries) = before[s] {
                    lemma_rotate_is_not_type();
                    let turned = entries.insert(
                        key("Rotate"),
                        PdfValue::Integer(half_turn_spec(rotation_of(entries)) as i64),
                    );
                    assert(turned[key("Type")] == entries[key("Type")]);
                }
            }
        }
    }
}

proof fn lemma_rotate_is_not_type()
    ensures
        key("Rotate") != key("Type"),
        key("MediaBox") != key("Type"),
{
    broadcast use vstd::string::is_ascii_spec_bytes;

    reveal_strlit("Rotate");
    reveal_strlit("Type");
    reveal_strlit("MediaBox");
    assert(vstd::string::is_ascii("Rotate"));
    assert(vstd::string::is_ascii("Type"));
    assert(vstd::string::is_ascii("MediaBox"));
    assert(key("Rotate").len() == 6);
    assert(key("Type").len() == 4);
    assert(key("MediaBox").len() == 8);
}

proof fn lemma_blank_pages_stored(objects: Map<ObjectId, PdfValue>, first: int, count: nat, page: PdfValue, k: int)
    requires
        0 <= k < count,
        first >= 0,
        first + count <= u32::MAX + 1,
    ensures
        with_blank_pages(objects, first, count, page).contains_key(((first + k) as u32, 0u16)),
        with_blank_pages(objects, first, count, page)[((first + k) as u32, 0u16)] == page,
    decreases count,
{
    if k < count - 1 {
        lemma_blank_pages_stored(objects, first, (count - 1) as nat, page, k);
        assert(((first + k) as u32, 0u16) != ((first + count - 1) as u32, 0u16));
    }
}

/// Reordering keeps every listed page a page: when each page of `pages` is
/// stored as a dictionary of `Type` `Page`, none twice, and every stored
/// object is numbered below `first` (the document's `max_id` plus one), all
/// booklets joined list no page twice, each is stored as a page dictionary in
/// the objects that `reorder_booklets` leaves, and none is numbered like the
/// object added next.
pub proof fn lemma_reordered_pages_stay_pages(
    objects0: Map<ObjectId, PdfValue>,
    pages: Seq<ObjectId>,
    per: int,
    first: int,
    last_page_back: bool,
    flip_backs: bool,
    rtl: bool,
    media_box: Seq<PdfValue>,
)
    requires
        pages.len() > 0,
        per > 0,
        per % 4 == 0,
        first >= 1,
        pages.no_duplicates(),
        stored_as_pages(objects0, pages),
        forall|x: ObjectId| #[trigger] objects0.contains_key(x) ==> x.0 < first,
        first + booklet_count_spec(pages.len() as int, per) * per - pages.len() <= u32::MAX,
    ensures
        ({
            let n = pages.len() as int;
            let count = booklet_count_spec(n, per);
            let missing = count * per - n;
            let resolve0 = resolver_in(objects0);
            let blank = blank_page_value(media_box);
            let before_last = joined_booklets(pages, per, first, last_page_back, rtl, (count - 1) as nat);
            let last = booklet_pages_spec(pages, per, count - 1, first, last_page_back, rtl);
            let turned_before = turned_objects(objects0, resolve0, before_last, before_last.len());
            let with_blanks = with_blank_pages(if flip_backs { turned_before } else { objects0 }, first, missing as nat, blank);
            let objects = if flip_backs {
                turned_objects(with_blanks, resolver_in(with_blanks), last, last.len())
            } else {
                with_blanks
            };
            let joined = joined_booklets(pages, per, first, last_page_back, rtl, count as nat);
            &&& joined.no_duplicates()
            &&& stored_as_pages(objects, joined)
            &&& !joined.contains(((first + missing) as u32, 0u16))
            &&& forall|c: ObjectId|
                #[trigger] objects0.contains_key(c) && objects0[c] is Dictionary ==> objects.contains_key(c)
                    && objects[c] is Dictionary
        }),
{
    broadcast use vstd::seq_lib::group_to_multiset_ensures, vstd::multiset::group_multiset_axioms;

    let n = pages.len() as int;
    let count = booklet_count_spec(n, per);
    lemma_ceil_div(n, per);
    let missing = count * per - n;
    let resolve0 = resolver_in(objects0);
    let blank = blank_page_value(media_box);
    let before_last = joined_booklets(pages, per, first, last_page_back, rtl, (count - 1) as nat);
    let last = booklet_pages_spec(pages, per, count - 1, first, last_page_back, rtl);
    let turned_before = turned_objects(objects0, resolve0, before_last, before_last.len());
    let base = if flip_backs { turned_before } else { objects0 };
    let with_blanks = with_blank_pages(base, first, missing as nat, blank);
    let objects = if flip_backs {
        turned_objects(with_blanks, resolver_in(with_blanks), last, last.len())
    } else {
        with_blanks
    };
    let joined = joined_booklets(pages, per, first, last_page_back, rtl, count as nat);
    let fresh = fresh_ids(first, missing);
    lemma_joined_booklets_hold_every_page_once(pages, per, first, last_page_back, rtl);
    lemma_rotate_is_not_type();
    pages.lemma_multiset_has_no_duplicates();
    // the blank pages' numbers are new and distinct
    assert forall|i: int| 0 <= i < missing implies !#[trigger] base.contains_key(((first + i) as u32, 0u16)) by {
        if base.contains_key(((first + i) as u32, 0u16)) {
            if flip_backs {
                lemma_turned_same_links(objects0, resolve0, before_last, before_last.len());
                assert(objects0.dom() == base.dom());
            }
            assert(objects0.contains_key(((first + i) as u32, 0u16)));
        }
    }
    assert(fresh.no_duplicates()) by {
        assert forall|i: int, j: int| 0 <= i < fresh.len() && 0 <= j < fresh.len() && i != j implies fresh[i]
            != fresh[j] by {}
    }
    fresh.lemma_multiset_has_no_duplicates();
    // every joined page occurs once
    assert forall|x: ObjectId| joined.to_multiset().contains(x) implies joined.to_multiset().count(x) == 1 by {
        if pages.to_multiset().contains(x) && fresh.to_multiset().contains(x) {
            assert(pages.contains(x));
            assert(fresh.contains(x));
            let i = choose|i: int| 0 <= i < pages.len() && pages[i] == x;
            assert(objects0.contains_key(pages[i]));
        }
    }
    joined.lemma_multiset_has_no_duplicates_conv();
    // every joined page is stored as a page
    assert forall|i: int| 0 <= i < joined.len() implies #[trigger] objects.contains_key(joined[i]) && has_entry(
        objects[joined[i]],
        key("Type"),
        PdfValue::Name(key("Page")),
    ) by {
        let x = joined[i];
        assert(joined.to_multiset().contains(x));
        if pages.to_multiset().contains(x) {
            assert(pages.contains(x));
            let j = choose|j: int| 0 <= j < pages.len() && pages[j] == x;
            assert(objects0.contains_key(pages[j]));
            assert(is_stored_page(objects0, pages[j]));
            if flip_backs {
                lemma_turning_keeps_pages(objects0, resolve0, before_last, before_last.len(), x);
            }
            assert(is_stored_page(base, x));
            lemma_blank_pages_extend(base, first, missing as nat, blank);
            assert(base.dom().contains(x));
            assert(with_blanks.dom().contains(x));
            assert(base[x] == with_blanks[x]);
            assert(is_stored_page(with_blanks, x));
            if flip_backs {
                lemma_turning_keeps_pages(with_blanks, resolver_in(with_blanks), last, last.len(), x);
            }
        } else {
            assert(fresh.to_multiset().contains(x));
            assert(fresh.contains(x));
            let k = choose|k: int| 0 <= k < fresh.len() && fresh[k] == x;
            lemma_blank_pages_stored(base, first, missing as nat, blank, k);
            assert(is_stored_page(with_blanks, x));
            if flip_backs {
                lemma_turning_keeps_pages(with_blanks, resolver_in(with_blanks), last, last.len(), x);
            }
        }
    }
    // none is numbered like the next object
    let next = ((first + missing) as u32, 0u16);
    if joined.contains(next) {
        let i = choose|i: int| 0 <= i < joined.len() && joined[i] == next;
        assert(joined.to_multiset().contains(next));
        if pages.to_multiset().contains(next) {
            assert(pages.contains(next));
            let j = choose|j: int| 0 <= j < pages.len() && pages[j] == next;
            assert(objects0.contains_key(pages[j]));
        } else {
            assert(fresh.contains(next));
        }
    }
    assert(joined.no_duplicates());
    assert(stored_as_pages(objects, joined));
    assert(!joined.contains(next));
    // dictionaries stay dictionaries
    lemma_turned_same_links(objects0, resolve0, before_last, before_last.len());
    lemma_turned_same_links(with_blanks, resolver_in(with_blanks), last, last.len());
    lemma_blank_pages_extend(base, first, missing as nat, blank);
    assert forall|c: ObjectId| #[trigger] objects0.contains_key(c) && objects0[c] is Dictionary implies objects.contains_key(c)
        && objects[c] is Dictionary by {
        assert(base.contains_key(c) && base[c] is Dictionary);
        assert(base.dom().contains(c) && with_blanks.dom().contains(c));
        assert(with_blanks.contains_key(c) && with_blanks[c] is Dictionary);
    }
}

/// With the last page kept on the back cover, the last booklet prints the
/// document's last page at the back-cover position (the first position left
/// to right, the second right to left), however many blank pages it needs.
pub proof fn lemma_last_page_stays_on_back_cover(pages: Seq<ObjectId>, per: int, first_blank: int, rtl: bool)
    requires
        pages.len() > 0,
        per > 0,
        per % 2 == 0,
    ensures
        ({
            let n = pages.len() as int;
            let last = booklet_pages_spec(pages, per, booklet_count_spec(n, per) - 1, first_blank, true, rtl);
            &&& last.len() == per
            &&& last[if rtl { 1int } else { 0int }] == pages[n - 1]
        }),
{
    let n = pages.len() as int;
    let count = booklet_count_spec(n, per);
    lemma_booklets_partition_pages(n, per);
    let start = booklet_start(per, count - 1);
    let own = pages.subrange(start, n);
    let missing = blanks_needed(n, per, count - 1);
    assert(0 <= start < n);
    assert(n - start <= per);
    let blanks = fresh_ids(first_blank, missing);
    let padded = padded_pages(own, blanks, blanks_before_last(n, per, count - 1, true));
    assert(padded == own.drop_last() + blanks + seq![own.last()]);
    assert(padded.len() == per);
    assert(padded[per - 1] == pages[n - 1]);
    let k: int = if rtl { 1 } else { 0 };
    assert(booklet_source(per, rtl, k) == per - 1);
}

/// Arranges every booklet of `plan` into printing order, one after the
/// other (as `arrange_booklet` does each, creating the last booklet's blank
/// pages), turning the backs of each booklet after arranging it when
/// `flip_backs` is set (as `turn_back_pages` does), and returns all booklets
/// joined. The pages are left one to a sheet.
/// Fails with `ObjectNumbersExhausted` when the blank pages run out of object
/// numbers and with `RotationOutOfRange` when a back cannot be turned.
#[verifier::rlimit(60)]
#[verifier::spinoff_prover]
pub fn reorder_booklets(
    doc: &mut Document,
    plan: &BookletPlan,
    last_page_back: bool,
    flip_backs: bool,
    rtl: bool,
) -> (r: Result<Vec<ObjectId>, BookletError>)
    requires
        plan.pages@.len() > 0,
        plan.per_booklet > 0,
        plan.per_booklet % 4 == 0,
        plan.booklet_count == booklet_count_spec(plan.pages@.len() as int, plan.per_booklet as int),
    ensures
        ({
            let pages = plan.pages@;
            let n = pages.len() as int;
            let per = plan.per_booklet as int;
            let count = plan.booklet_count as int;
            let missing = count * per - n;
            let first = document_max_id(*old(doc)) + 1;
            let objects0 = document_objects(*old(doc));
            let resolve0 = resolver(*old(doc));
            let blank = blank_page_value(media_box_for_blanks(*old(doc), pages[0]));
            let before_last = joined_booklets(pages, per, first, last_page_back, rtl, (count - 1) as nat);
            let last = booklet_pages_spec(pages, per, count - 1, first, last_page_back, rtl);
            let turned_before = turned_objects(objects0, resolve0, before_last, before_last.len());
            let with_blanks = with_blank_pages(if flip_backs { turned_before } else { objects0 }, first, missing as nat, blank);
            let prefix_fits = !flip_backs || turning_fits(objects0, resolve0, before_last, before_last.len());
            &&& (r matches Err(e) && e == BookletError::ObjectNumbersExhausted) <==> (prefix_fits
                && document_max_id(*old(doc)) + missing > u32::MAX)
            &&& r is Ok <==> (prefix_fits && document_max_id(*old(doc)) + missing <= u32::MAX && (flip_backs
                ==> turning_fits(with_blanks, resolver_in(with_blanks), last, last.len())))
            &&& r matches Err(e) ==> e == BookletError::ObjectNumbersExhausted || e
                == BookletError::RotationOutOfRange
            &&& r matches Ok(joined) ==> {
                &&& joined@ == joined_booklets(pages, per, first, last_page_back, rtl, count as nat)
                &&& joined@ == before_last + last
                &&& document_max_id(*final(doc)) == document_max_id(*old(doc)) + missing
                &&& document_trailer(*final(doc)) == document_trailer(*old(doc))
                &&& document_objects(*final(doc)) == if flip_backs {
                    turned_objects(with_blanks, resolver_in(with_blanks), last, last.len())
                } else {
                    with_blanks
                }
            }
            &&& (forall|i: int| 0 <= i < missing ==> !#[trigger] objects0.contains_key(((first + i) as u32, 0u16)))
                ==> forall|id: ObjectId| #[trigger] resolve_in(objects0, id) is Some ==> resolve_in(with_blanks, id)
                == resolve_in(objects0, id)
        }),
{
    let ghost objects0 = document_objects(*doc);
    let ghost resolve0 = resolver(*doc);
    let ghost first = document_max_id(*doc) + 1;
    proof {
        lemma_ceil_div(plan.pages@.len() as int, plan.per_booklet as int);
        lemma_blanks_after_turns_keep_resolution(
            objects0,
            joined_booklets(plan.pages@, plan.per_booklet as int, first, last_page_back, rtl, (plan.booklet_count - 1) as nat),
            flip_backs,
            first,
            plan.booklet_count as int * plan.per_booklet as int - plan.pages@.len() as int,
            blank_page_value(media_box_for_blanks(*doc, plan.pages@[0])),
        );
        assert(resolve0 =~= resolver_in(objects0));
    }
    let ghost pages = plan.pages@;
    let ghost per = plan.per_booklet as int;
    let ghost n = pages.len() as int;
    let count = plan.booklet_count;
    proof {
        lemma_booklets_partition_pages(n, per);
    }
    let media_box = blank_media_box(doc, plan.pages[0]);
    let mut joined: Vec<ObjectId> = Vec::new();
    let mut i: usize = 0;
    while i < count - 1
        invariant
            1 <= count == booklet_count_spec(n, per),
            count == plan.booklet_count,
            pages == plan.pages@,
            n == pages.len(),
            n > 0,
            per == plan.per_booklet,
            per > 0,
            per % 4 == 0,
            i <= count - 1,
            first == document_max_id(*old(doc)) + 1,
            objects0 == document_objects(*old(doc)),
            resolve0 == resolver(*old(doc)),
            values_of(media_box@) == media_box_for_blanks(*old(doc), pages[0]),
            joined@ == joined_booklets(pages, per, first, last_page_back, rtl, i as nat),
            joined@.len() == i * per,
            document_max_id(*doc) == document_max_id(*old(doc)),
            document_trailer(*doc) == document_trailer(*old(doc)),
            resolver(*doc) == resolve0,
            document_objects(*doc) == if flip_backs {
                turned_objects(objects0, resolve0, joined@, joined@.len())
            } else {
                objects0
            },
            flip_backs ==> turning_fits(objects0, resolve0, joined@, joined@.len()),
            forall|j: int| 0 <= j < count - 1 ==> #[trigger] booklet_end(n, per, j) - booklet_start(per, j) == per,
        decreases count - 1 - i,
    {
        let ghost before_doc = *doc;
        let order = match arrange_booklet(doc, &plan.pages, plan.per_booklet, i, last_page_back, rtl, media_box.as_slice()) {
            Ok(order) => order,
            Err(e) => {
                return Err(e);
            },
        };
        assert(*doc == before_doc);
        assert(order@ == booklet_pages_spec(pages, per, i as int, first, last_page_back, rtl));
        assert(order@.len() == per) by {
            lemma_arranged_booklet_holds_its_pages(pages, per, i as int, first, last_page_back, rtl);
        }
        let ghost prev = joined@;
        if flip_backs {
            match turn_back_pages(doc, &order) {
                Ok(()) => {},
                Err(e) => {
                    proof {
                        assert(!turning_fits(turned_objects(objects0, resolve0, prev, prev.len()), resolve0, order@, order@.len()));
                        lemma_whole_sheets(i as int, per);
                        lemma_turned_objects_concat(objects0, resolve0, prev, order@, order@.len());
                        assert(!turning_fits(objects0, resolve0, prev + order@, (prev.len() + order@.len()) as nat));
                        let whole = joined_booklets(pages, per, first, last_page_back, rtl, (count - 1) as nat);
                        lemma_joined_is_prefix(pages, per, first, last_page_back, rtl, (i + 1) as nat, (count - 1) as nat);
                        lemma_joined_len_grows(pages, per, first, last_page_back, rtl, (i + 1) as nat, (count - 1) as nat);
                        assert(prev + order@ == joined_booklets(pages, per, first, last_page_back, rtl, (i + 1) as nat));
                        assert((prev + order@).take((prev.len() + order@.len()) as int) =~= prev + order@);
                        lemma_turned_objects_prefix(objects0, resolve0, whole, prev + order@, (prev.len() + order@.len()) as nat);
                        assert(!turning_fits(objects0, resolve0, whole, (prev.len() + order@.len()) as nat));
                        if turning_fits(objects0, resolve0, whole, whole.len()) {
                            lemma_turning_fits_prefix(objects0, resolve0, whole, (prev.len() + order@.len()) as nat, whole.len());
                        }
                        assert(!turning_fits(objects0, resolve0, whole, whole.len()));
                        lemma_ceil_div(n, per);
                        lemma_blanks_after_turns_keep_resolution(
                            objects0,
                            whole,
                            flip_backs,
                            first,
                            count * per - n,
                            blank_page_value(media_box_for_blanks(*old(doc), pages[0])),
                        );
                        assert(resolve0 =~= resolver_in(objects0));
                    }
                    return Err(e);
                },
            }
        }
        let mut k: usize = 0;
        while k < order.len()
            invariant
                k <= order@.len(),
                joined@ == prev + order@.take(k as int),
            decreases order@.len() - k,
        {
            joined.push(order[k]);
            assert(joined@ =~= prev + order@.take(k + 1));
            k = k + 1;
        }
        assert(order@.take(order@.len() as int) =~= order@);
        proof {
            lemma_whole_sheets(i as int, per);
            lemma_turned_objects_concat(objects0, resolve0, prev, order@, order@.len());
            assert((i + 1) * per == i * per + per) by (nonlinear_arith);
        }
        i = i + 1;
    }
    let ghost prev = joined@;
    let ghost before_doc = *doc;
    let last_index = count - 1;
    proof {
        assert(blanks_needed(n, per, count - 1) == count * per - n) by {
            lemma_joined_booklets_hold_every_page_once(pages, per, first, last_page_back, rtl);
        }
    }
    let order = match arrange_booklet(doc, &plan.pages, plan.per_booklet, last_index, last_page_back, rtl, media_box.as_slice()) {
        Ok(order) => order,
        Err(e) => {
            return Err(e);
        },
    };
    proof {
        assert(resolver(*doc) =~= resolver_in(document_objects(*doc)));
    }
    if flip_backs {
        match turn_back_pages(doc, &order) {
            Ok(()) => {},
            Err(e) => {
                return Err(e);
            },
        }
    }
    let mut k: usize = 0;
    while k < order.len()
        invariant
            k <= order@.len(),
            joined@ == prev + order@.take(k as int),
        decreases order@.len() - k,
    {
        joined.push(order[k]);
        assert(joined@ =~= prev + order@.take(k + 1));
        k = k + 1;
    }
    assert(order@.take(order@.len() as int) =~= order@);
    Ok(joined)
}

proof fn lemma_turn_failure_blocks_prefix(
    objects0: Map<ObjectId, PdfValue>,
    resolve0: spec_fn(ObjectId) -> Option<ObjectId>,
    pages: Seq<ObjectId>,
    per: int,
    first: int,
    last_page_back: bool,
    rtl: bool,
    i: nat,
    k: nat,
    prev: Seq<ObjectId>,
    order: Seq<ObjectId>,
)
    requires
        per % 4 == 0,
        i < k,
        prev == joined_booklets(pages, per, first, last_page_back, rtl, i),
        prev.len() == i * per,
        order == booklet_pages_spec(pages, per, i as int, first, last_page_back, rtl),
        !turning_fits(turned_objects(objects0, resolve0, prev, prev.len()), resolve0, order, order.len()),
    ensures
        !turning_fits(
            objects0,
            resolve0,
            joined_booklets(pages, per, first, last_page_back, rtl, k),
            joined_booklets(pages, per, first, last_page_back, rtl, k).len(),
        ),
{
    lemma_whole_sheets(i as int, per);
    lemma_turned_objects_concat(objects0, resolve0, prev, order, order.len());
    let whole = joined_booklets(pages, per, first, last_page_back, rtl, k);
    lemma_joined_is_prefix(pages, per, first, last_page_back, rtl, i + 1, k);
    lemma_joined_len_grows(pages, per, first, last_page_back, rtl, i + 1, k);
    assert(prev + order == joined_booklets(pages, per, first, last_page_back, rtl, i + 1));
    assert((prev + order).take((prev.len() + order.len()) as int) =~= prev + order);
    lemma_turned_objects_prefix(objects0, resolve0, whole, prev + order, (prev.len() + order.len()) as nat);
    if turning_fits(objects0, resolve0, whole, whole.len()) {
        lemma_turning_fits_prefix(objects0, resolve0, whole, (prev.len() + order.len()) as nat, whole.len());
    }
}

proof fn lemma_whole_sheets(i: int, per: int)
    requires
        i >= 0,
        per % 4 == 0,
    ensures
        (i * per) % 4 == 0,
{
    let q = per / 4;
    assert(per == 4 * q);
    assert(i * per == 4 * (i * q)) by (nonlinear_arith)
        requires per == 4 * q;
}

proof fn lemma_joined_is_prefix(
    pages: Seq<ObjectId>,
    per: int,
    first_blank: int,
    last_page_back: bool,
    rtl: bool,
    j: nat,
    k: nat,
)
    requires
        j <= k,
    ensures
        joined_booklets(pages, per, first_blank, last_page_back, rtl, k).take(
            joined_booklets(pages, per, first_blank, last_page_back, rtl, j).len() as int,
        ) == joined_booklets(pages, per, first_blank, last_page_back, rtl, j),
    decreases k,
{
    if j < k {
        lemma_joined_is_prefix(pages, per, first_blank, last_page_back, rtl, j, (k - 1) as nat);
        let a = joined_booklets(pages, per, first_blank, last_page_back, rtl, (k - 1) as nat);
        let len_j = joined_booklets(pages, per, first_blank, last_page_back, rtl, j).len() as int;
        lemma_joined_len_grows(pages, per, first_blank, last_page_back, rtl, j, (k - 1) as nat);
        assert((a + booklet_pages_spec(pages, per, k - 1, first_blank, last_page_back, rtl)).take(len_j)
            =~= a.take(len_j));
    }
}

proof fn lemma_joined_len_grows(
    pages: Seq<ObjectId>,
    per: int,
    first_blank: int,
    last_page_back: bool,
    rtl: bool,
    j: nat,
    k: nat,
)
    requires
        j <= k,
    ensures
        joined_booklets(pages, per, first_blank, last_page_back, rtl, j).len() <= joined_booklets(
            pages,
            per,
            first_blank,
            last_page_back,
            rtl,
            k,
        ).len(),
    decreases k,
{
    if j < k {
        lemma_joined_len_grows(pages, per, first_blank, last_page_back, rtl, j, (k - 1) as nat);
    }
}

/// `after` is what `install_page_order` leaves when it makes `pages` the
/// page order of any document that holds `objects`, `trailer` and `max_id`.
pub open spec fn installs_onto(
    objects: Map<ObjectId, PdfValue>,
    trailer: Map<Seq<u8>, PdfValue>,
    max_id: u32,
    after: Document,
    pages: Seq<ObjectId>,
) -> bool {
    forall|d: Document|
        #![trigger installs_page_order(d, after, pages, Ok::<ObjectId, BookletError>(next_object_id(d)))]
        document_objects(d) == objects && document_trailer(d) == trailer && document_max_id(d) == max_id
            ==> installs_page_order(d, after, pages, Ok::<ObjectId, BookletError>(next_object_id(d)))
}

proof fn lemma_installs_onto(d: Document, after: Document, pages: Seq<ObjectId>)
    requires
        installs_page_order(d, after, pages, Ok::<ObjectId, BookletError>(next_object_id(d))),
    ensures
        installs_onto(document_objects(d), document_trailer(d), document_max_id(d), after, pages),
{
    assert forall|e: Document|
        document_objects(e) == document_objects(d) && document_trailer(e) == document_trailer(d)
            && document_max_id(e) == document_max_id(d) implies #[trigger] installs_page_order(
        e,
        after,
        pages,
        Ok::<ObjectId, BookletError>(next_object_id(e)),
    ) by {
        lemma_install_depends_on_contents(d, e, after, pages, Ok::<ObjectId, BookletError>(next_object_id(d)));
    }
}

proof fn lemma_install_errors(d: Document, left: Document, pages: Seq<ObjectId>, e: BookletError)
    requires
        installs_page_order(d, left, pages, Err::<ObjectId, BookletError>(e)),
    ensures
        e == BookletError::ObjectNumbersExhausted || e == BookletError::NoRootInTrailer || e
            == BookletError::RootNotReference || e == BookletError::CatalogNotDictionary,
{
    if document_max_id(d) != u32::MAX {
        let built = choose|built: Document|
            #[trigger] page_tree_built(d, built, pages, next_object_id(d)) && match catalog_lookup(built) {
                Ok(_) => Err::<ObjectId, BookletError>(e) == Ok::<ObjectId, BookletError>(next_object_id(d))
                    && exists|pointed: Document|
                    #[trigger] catalog_pointed(built, pointed, next_object_id(d)) && unreferenced_dropped(pointed, left),
                Err(x) => Err::<ObjectId, BookletError>(e) == Err::<ObjectId, BookletError>(x) && left == built,
            };
    }
}

/// The objects of the document once booklets `0..=index` (all full) have
/// been arranged and, when `flip_backs` is set, their backs turned.
pub open spec fn stage_objects(
    objects: Map<ObjectId, PdfValue>,
    resolve: spec_fn(ObjectId) -> Option<ObjectId>,
    pages: Seq<ObjectId>,
    per: int,
    first_blank: int,
    last_page_back: bool,
    rtl: bool,
    flip_backs: bool,
    index: int,
) -> Map<ObjectId, PdfValue> {
    if flip_backs {
        let done = joined_booklets(pages, per, first_blank, last_page_back, rtl, (index + 1) as nat);
        turned_objects(objects, resolve, done, done.len())
    } else {
        objects
    }
}

/// One document per booklet: arranges each booklet of `plan` in turn (as
/// `arrange_booklet`), turns its backs when `flip_backs` is set (as
/// `turn_back_pages`), and makes a copy of the document whose pages are that
/// booklet (as `booklet_document`). The document itself ends as
/// `reorder_booklets` leaves it.
/// Fails with `ObjectNumbersExhausted` or `RotationOutOfRange` as
/// `reorder_booklets` does, and with the error of a copy that fails.
#[verifier::rlimit(80)]
#[verifier::spinoff_prover]
pub fn booklet_documents(
    doc: &mut Document,
    plan: &BookletPlan,
    last_page_back: bool,
    flip_backs: bool,
    rtl: bool,
) -> (r: Result<Vec<Document>, BookletError>)
    requires
        plan.pages@.len() > 0,
        plan.per_booklet > 0,
        plan.per_booklet % 4 == 0,
        plan.per_booklet <= i64::MAX,
        plan.booklet_count == booklet_count_spec(plan.pages@.len() as int, plan.per_booklet as int),
    ensures
        ({
            let pages = plan.pages@;
            let n = pages.len() as int;
            let per = plan.per_booklet as int;
            let count = plan.booklet_count as int;
            let missing = count * per - n;
            let first = document_max_id(*old(doc)) + 1;
            let objects0 = document_objects(*old(doc));
            let resolve0 = resolver(*old(doc));
            let blank = blank_page_value(media_box_for_blanks(*old(doc), pages[0]));
            let before_last = joined_booklets(pages, per, first, last_page_back, rtl, (count - 1) as nat);
            let last = booklet_pages_spec(pages, per, count - 1, first, last_page_back, rtl);
            let turned_before = turned_objects(objects0, resolve0, before_last, before_last.len());
            let with_blanks = with_blank_pages(if flip_backs { turned_before } else { objects0 }, first, missing as nat, blank);
            let prefix_fits = !flip_backs || turning_fits(objects0, resolve0, before_last, before_last.len());
            let last_stage = if flip_backs {
                turned_objects(with_blanks, resolver_in(with_blanks), last, last.len())
            } else {
                with_blanks
            };
            let trailer0 = document_trailer(*old(doc));
            &&& r matches Err(e) ==> e == BookletError::ObjectNumbersExhausted || e
                == BookletError::RotationOutOfRange || e == BookletError::NoRootInTrailer || e
                == BookletError::RootNotReference || e == BookletError::CatalogNotDictionary
            &&& r is Ok <==> (prefix_fits && document_max_id(*old(doc)) + missing <= u32::MAX && (forall|i: int|
                0 <= i < count - 1 ==> #[trigger] install_outcome(
                    stage_objects(objects0, resolve0, pages, per, first, last_page_back, rtl, flip_backs, i),
                    trailer0,
                    document_max_id(*old(doc)),
                    booklet_pages_spec(pages, per, i, first, last_page_back, rtl),
                ) is Ok) && (flip_backs ==> turning_fits(with_blanks, resolver_in(with_blanks), last, last.len()))
                && install_outcome(last_stage, trailer0, (document_max_id(*old(doc)) + missing) as u32, last) is Ok)
            &&& (r matches Err(e) && e == BookletError::NoRootInTrailer) ==> !trailer0.contains_key(key("Root"))
            &&& (r matches Err(e) && e == BookletError::RootNotReference) ==> trailer0.contains_key(key("Root"))
                && !(trailer0[key("Root")] is Reference)
            &&& (r matches Err(e) && e == BookletError::CatalogNotDictionary) ==> trailer0.contains_key(key("Root"))
                && trailer0[key("Root")] is Reference
            &&& r matches Ok(outs) ==> {
                &&& outs@.len() == count
                &&& forall|i: int|
                    0 <= i < count - 1 ==> installs_onto(
                        stage_objects(objects0, resolve0, pages, per, first, last_page_back, rtl, flip_backs, i),
                        document_trailer(*old(doc)),
                        document_max_id(*old(doc)),
                        #[trigger] outs@[i],
                        booklet_pages_spec(pages, per, i, first, last_page_back, rtl),
                    )
                &&& installs_page_order(*final(doc), outs@[count - 1], last, Ok::<ObjectId, BookletError>(next_object_id(*final(doc))))
                &&& document_max_id(*final(doc)) == document_max_id(*old(doc)) + missing
                &&& document_trailer(*final(doc)) == document_trailer(*old(doc))
                &&& document_objects(*final(doc)) == if flip_backs {
                    turned_objects(with_blanks, resolver_in(with_blanks), last, last.len())
                } else {
                    with_blanks
                }
            }
        }),
{
    let ghost objects0 = document_objects(*doc);
    let ghost resolve0 = resolver(*doc);
    let ghost first = document_max_id(*doc) + 1;
    let ghost pages = plan.pages@;
    let ghost per = plan.per_booklet as int;
    let ghost n = pages.len() as int;
    let count = plan.booklet_count;
    proof {
        lemma_booklets_partition_pages(n, per);
    }
    let media_box = blank_media_box(doc, plan.pages[0]);
    let mut outs: Vec<Document> = Vec::new();
    let ghost mut done: Seq<ObjectId> = Seq::empty();
    let mut i: usize = 0;
    while i < count - 1
        invariant
            1 <= count == booklet_count_spec(n, per),
            count == plan.booklet_count,
            pages == plan.pages@,
            n == pages.len(),
            n > 0,
            per == plan.per_booklet,
            per > 0,
            per % 4 == 0,
            per <= i64::MAX,
            i <= count - 1,
            first == document_max_id(*old(doc)) + 1,
            objects0 == document_objects(*old(doc)),
            resolve0 == resolver(*old(doc)),
            values_of(media_box@) == media_box_for_blanks(*old(doc), pages[0]),
            done == joined_booklets(pages, per, first, last_page_back, rtl, i as nat),
            done.len() == i * per,
            outs@.len() == i,
            forall|j: int|
                0 <= j < i ==> installs_onto(
                    stage_objects(objects0, resolve0, pages, per, first, last_page_back, rtl, flip_backs, j),
                    document_trailer(*old(doc)),
                    document_max_id(*old(doc)),
                    #[trigger] outs@[j],
                    booklet_pages_spec(pages, per, j, first, last_page_back, rtl),
                ),
            forall|j: int|
                0 <= j < i ==> #[trigger] install_outcome(
                    stage_objects(objects0, resolve0, pages, per, first, last_page_back, rtl, flip_backs, j),
                    document_trailer(*old(doc)),
                    document_max_id(*old(doc)),
                    booklet_pages_spec(pages, per, j, first, last_page_back, rtl),
                ) is Ok,
            document_max_id(*doc) == document_max_id(*old(doc)),
            document_trailer(*doc) == document_trailer(*old(doc)),
            resolver(*doc) == resolve0,
            document_objects(*doc) == if flip_backs {
                turned_objects(objects0, resolve0, done, done.len())
            } else {
                objects0
            },
            flip_backs ==> turning_fits(objects0, resolve0, done, done.len()),
            forall|j: int| 0 <= j < count - 1 ==> #[trigger] booklet_end(n, per, j) - booklet_start(per, j) == per,
        decreases count - 1 - i,
    {
        let ghost before_doc = *doc;
        let order = match arrange_booklet(doc, &plan.pages, plan.per_booklet, i, last_page_back, rtl, media_box.as_slice()) {
            Ok(order) => order,
            Err(e) => {
                return Err(e);
            },
        };
        assert(*doc == before_doc);
        assert(order@ == booklet_pages_spec(pages, per, i as int, first, last_page_back, rtl));
        assert(order@.len() == per) by {
            lemma_arranged_booklet_holds_its_pages(pages, per, i as int, first, last_page_back, rtl);
        }
        let ghost prev = done;
        if flip_backs {
            match turn_back_pages(doc, &order) {
                Ok(()) => {},
                Err(e) => {
                    proof {
                        lemma_turn_failure_blocks_prefix(objects0, resolve0, pages, per, first, last_page_back, rtl, i as nat, (count - 1) as nat, prev, order@);
                    }
                    return Err(e);
                },
            }
        }
        proof {
            lemma_whole_sheets(i as int, per);
            lemma_turned_objects_concat(objects0, resolve0, prev, order@, order@.len());
            assert((i + 1) * per == i * per + per) by (nonlinear_arith);
            done = prev + order@;
            assert(done == joined_booklets(pages, per, first, last_page_back, rtl, (i + 1) as nat));
            assert(document_objects(*doc) == stage_objects(objects0, resolve0, pages, per, first, last_page_back, rtl, flip_backs, i as int));
        }
        let copy = match booklet_document(doc, order.as_slice()) {
            Ok(copy) => copy,
            Err(e) => {
                proof {
                    let left = choose|left: Document| installs_page_order(*doc, left, order@, Err::<ObjectId, BookletError>(e));
                    lemma_install_errors(*doc, left, order@, e);
                    assert(install_outcome(
                        stage_objects(objects0, resolve0, pages, per, first, last_page_back, rtl, flip_backs, i as int),
                        document_trailer(*old(doc)),
                        document_max_id(*old(doc)),
                        booklet_pages_spec(pages, per, i as int, first, last_page_back, rtl),
                    ) is Err);
                }
                return Err(e);
            },
        };
        proof {
            lemma_installs_onto(*doc, copy, order@);
            assert(install_outcome(
                stage_objects(objects0, resolve0, pages, per, first, last_page_back, rtl, flip_backs, i as int),
                document_trailer(*old(doc)),
                document_max_id(*old(doc)),
                booklet_pages_spec(pages, per, i as int, first, last_page_back, rtl),
            ) is Ok);
        }
        outs.push(copy);
        i = i + 1;
    }
    let ghost prev = done;
    let last_index = count - 1;
    proof {
        assert(blanks_needed(n, per, count - 1) == count * per - n) by {
            lemma_joined_booklets_hold_every_page_once(pages, per, first, last_page_back, rtl);
        }
    }
    let order = match arrange_booklet(doc, &plan.pages, plan.per_booklet, last_index, last_page_back, rtl, media_box.as_slice()) {
        Ok(order) => order,
        Err(e) => {
            return Err(e);
        },
    };
    proof {
        assert(resolver(*doc) =~= resolver_in(document_objects(*doc)));
    }
    assert(order@.len() == per) by {
        lemma_arranged_booklet_holds_its_pages(pages, per, last_index as int, first, last_page_back, rtl);
    }
    if flip_backs {
        match turn_back_pages(doc, &order) {
            Ok(()) => {},
            Err(e) => {
                return Err(e);
            },
        }
    }
    let copy = match booklet_document(doc, order.as_slice()) {
        Ok(copy) => copy,
        Err(e) => {
            proof {
                let left = choose|left: Document| installs_page_order(*doc, left, order@, Err::<ObjectId, BookletError>(e));
                lemma_install_errors(*doc, left, order@, e);
            }
            return Err(e);
        },
    };
    outs.push(copy);
    Ok(outs)
}

/// Two whole runs over the same pages, one left-to-right and one
/// right-to-left, print the same pages on every side with the two halves
/// exchanged: position `2m` of one is position `2m + 1` of the other.
pub proof fn lemma_rtl_swaps_halves_of_all_booklets(
    pages: Seq<ObjectId>,
    per: int,
    first_blank: int,
    last_page_back: bool,
    k: nat,
    m: int,
)
    requires
        per > 0,
        per % 2 == 0,
        1 <= k <= booklet_count_spec(pages.len() as int, per),
        0 <= m,
        2 * m + 1 < k * per,
    ensures
        joined_booklets(pages, per, first_blank, last_page_back, true, k).len() == k * per,
        joined_booklets(pages, per, first_blank, last_page_back, false, k).len() == k * per,
        joined_booklets(pages, per, first_blank, last_page_back, true, k)[2 * m]
            == joined_booklets(pages, per, first_blank, last_page_back, false, k)[2 * m + 1],
        joined_booklets(pages, per, first_blank, last_page_back, true, k)[2 * m + 1]
            == joined_booklets(pages, per, first_blank, last_page_back, false, k)[2 * m],
    decreases k,
{
    let n = pages.len() as int;
    lemma_joined_prefix(pages, per, first_blank, last_page_back, true, k);
    lemma_joined_prefix(pages, per, first_blank, last_page_back, false, k);
    let before_r = joined_booklets(pages, per, first_blank, last_page_back, true, (k - 1) as nat);
    let before_l = joined_booklets(pages, per, first_blank, last_page_back, false, (k - 1) as nat);
    let last_r = booklet_pages_spec(pages, per, k - 1, first_blank, last_page_back, true);
    let last_l = booklet_pages_spec(pages, per, k - 1, first_blank, last_page_back, false);
    assert(before_r.len() == (k - 1) * per && before_l.len() == (k - 1) * per) by {
        if k > 1 {
            lemma_joined_prefix(pages, per, first_blank, last_page_back, true, (k - 1) as nat);
            lemma_joined_prefix(pages, per, first_blank, last_page_back, false, (k - 1) as nat);
        } else {
            assert((k - 1) * per == 0) by (nonlinear_arith)
                requires k == 1;
        }
    }
    lemma_arranged_booklet_holds_its_pages(pages, per, k - 1, first_blank, last_page_back, true);
    lemma_arranged_booklet_holds_its_pages(pages, per, k - 1, first_blank, last_page_back, false);
    assert((k - 1) * per + per == k * per) by (nonlinear_arith);
    if 2 * m + 1 < (k - 1) * per {
        lemma_rtl_swaps_halves_of_all_booklets(pages, per, first_blank, last_page_back, (k - 1) as nat, m);
    } else {
        let q = per / 2;
        assert(per == 2 * q);
        assert((k - 1) * per == 2 * ((k - 1) * q)) by (nonlinear_arith)
            requires per == 2 * q;
        let j = m - (k - 1) * q;
        assert(2 * m - (k - 1) * per == 2 * j);
        let chunk = padded_pages(
            pages.subrange(booklet_start(per, k - 1), booklet_end(n, per, k - 1)),
            fresh_ids(first_blank, blanks_needed(n, per, k - 1)),
            blanks_before_last(n, per, k - 1, last_page_back),
        );
        lemma_rtl_swaps_halves(chunk.len() as int, j);
        assert(last_r[2 * j] == last_l[2 * j + 1]);
        assert(last_r[2 * j + 1] == last_l[2 * j]);
    }
}

/// The document written out as PDF bytes (`Document::save_to`).
/// Fails with `ObjectNumbersExhausted` when `max_id` leaves no room for the
/// two numbers that writing takes, and with `SaveFailed` when writing
/// reports an error.
pub fn document_bytes(doc: Document) -> (r: Result<Vec<u8>, BookletError>)
    ensures
        (r matches Err(e) && e == BookletError::ObjectNumbersExhausted) <==> document_max_id(doc) > u32::MAX - 2,
        r is Ok <==> document_max_id(doc) <= u32::MAX - 2 && saved_bytes(doc) is Some,
        r matches Ok(bytes) ==> saved_bytes(doc) == Some(bytes@),
        r matches Err(e) ==> e == BookletError::ObjectNumbersExhausted || e == BookletError::SaveFailed,
{
    if last_object_number(&doc) > u32::MAX - 2 {
        return Err(BookletError::ObjectNumbersExhausted);
    }
    match save_to_bytes(doc) {
        Some(bytes) => Ok(bytes),
        None => Err(BookletError::SaveFailed),
    }
}

} // verus!
