use booklet::document::{
    arrange_booklet, blank_media_box, booklet_document, create_blank_page, install_page_order,
    booklet_documents, has_object_room, plan_booklets, recreate_pages_tree, reorder_booklets,
    turn_back_pages, update_catalog, document_bytes, create_form_xobject,
};
use booklet::error::BookletError;
use lopdf::{Dictionary, Document, Object, ObjectId};

fn page_dict(media_box: Option<Vec<i64>>, rotate: Option<i64>) -> Dictionary {
    let mut dict = Dictionary::new();
    dict.set("Type", Object::Name(b"Page".to_vec()));
    if let Some(mb) = media_box {
        dict.set("MediaBox", Object::Array(mb.into_iter().map(Object::Integer).collect()));
    }
    if let Some(r) = rotate {
        dict.set("Rotate", Object::Integer(r));
    }
    dict
}

/// A document with `count` pages, each `[0 0 300 400]`, rotations as given.
fn sample_document(count: usize, rotations: &[Option<i64>]) -> (Document, Vec<ObjectId>, ObjectId) {
    let mut doc = Document::with_version("1.5");
    let pages_id = doc.new_object_id();
    let mut ids = Vec::new();
    for i in 0..count {
        let rotate = rotations.get(i).cloned().flatten();
        let mut dict = page_dict(Some(vec![0, 0, 300, 400]), rotate);
        dict.set("Parent", Object::Reference(pages_id));
        ids.push(doc.add_object(dict));
    }
    let mut pages = Dictionary::new();
    pages.set("Type", Object::Name(b"Pages".to_vec()));
    pages.set("Count", Object::Integer(count as i64));
    pages.set("Kids", Object::Array(ids.iter().map(|&id| Object::Reference(id)).collect()));
    doc.objects.insert(pages_id, Object::Dictionary(pages));
    let mut catalog = Dictionary::new();
    catalog.set("Type", Object::Name(b"Catalog".to_vec()));
    catalog.set("Pages", Object::Reference(pages_id));
    let catalog_id = doc.add_object(catalog);
    doc.trailer.set("Root", Object::Reference(catalog_id));
    (doc, ids, catalog_id)
}

fn dict_of(doc: &Document, id: ObjectId) -> &Dictionary {
    doc.get_object(id).unwrap().as_dict().unwrap()
}

#[test]
fn blank_page_is_fresh_page_with_media_box() {
    let (mut doc, _, _) = sample_document(2, &[]);
    let before = doc.max_id;
    let media_box = vec![Object::Integer(1), Object::Integer(2), Object::Integer(3), Object::Integer(4)];
    let id = create_blank_page(&mut doc, &media_box);
    assert_eq!(id, (before + 1, 0));
    assert_eq!(doc.max_id, before + 1);
    let dict = dict_of(&doc, id);
    assert_eq!(dict.get(b"Type").unwrap().as_name().unwrap(), b"Page");
    assert_eq!(dict.get(b"MediaBox").unwrap().as_array().unwrap(), &media_box);
    assert_eq!(dict.len(), 2);
}

#[test]
fn media_box_taken_from_first_page() {
    let (doc, ids, _) = sample_document(3, &[]);
    let mb = blank_media_box(&doc, ids[0]);
    assert_eq!(mb, vec![Object::Integer(0), Object::Integer(0), Object::Integer(300), Object::Integer(400)]);
}

#[test]
fn media_box_defaults_to_a4() {
    let mut doc = Document::with_version("1.5");
    let id = doc.add_object(page_dict(None, None));
    let mb = blank_media_box(&doc, id);
    assert_eq!(mb, vec![Object::Integer(0), Object::Integer(0), Object::Integer(595), Object::Integer(842)]);
    let missing = blank_media_box(&doc, (999, 0));
    assert_eq!(missing, mb);
    let not_dict = doc.add_object(Object::Integer(7));
    assert_eq!(blank_media_box(&doc, not_dict), mb);
}

#[test]
fn plan_reads_pages_and_sizes() {
    let (doc, ids, _) = sample_document(10, &[]);
    let plan = plan_booklets(&doc, 4).unwrap();
    assert_eq!(plan.pages, ids);
    assert_eq!(plan.per_booklet, 4);
    assert_eq!(plan.booklet_count, 3);
    let whole = plan_booklets(&doc, 0).unwrap();
    assert_eq!(whole.per_booklet, 12);
    assert_eq!(whole.booklet_count, 1);
}

#[test]
fn plan_fails_without_pages() {
    let (doc, _, _) = sample_document(0, &[]);
    assert!(matches!(plan_booklets(&doc, 4), Err(BookletError::NoPages)));
}

#[test]
fn plan_fails_on_unroundable_size() {
    let (doc, _, _) = sample_document(3, &[]);
    assert!(matches!(plan_booklets(&doc, usize::MAX), Err(BookletError::InvalidPagesPerBooklet)));
}

#[test]
fn arrange_full_booklet_creates_no_blanks() {
    let (mut doc, ids, _) = sample_document(10, &[]);
    let before = doc.max_id;
    let mb = blank_media_box(&doc, ids[0]);
    let order = arrange_booklet(&mut doc, &ids, 4, 1, true, false, &mb).unwrap();
    assert_eq!(order, vec![ids[7], ids[4], ids[5], ids[6]]);
    assert_eq!(doc.max_id, before);
}

#[test]
fn arrange_last_booklet_blanks_before_last_page() {
    let (mut doc, ids, _) = sample_document(10, &[]);
    let m = doc.max_id;
    let mb = blank_media_box(&doc, ids[0]);
    let order = arrange_booklet(&mut doc, &ids, 4, 2, true, false, &mb).unwrap();
    let b1 = (m + 1, 0);
    let b2 = (m + 2, 0);
    assert_eq!(order, vec![ids[9], ids[8], b1, b2]);
    assert_eq!(doc.max_id, m + 2);
    for b in [b1, b2] {
        let dict = dict_of(&doc, b);
        assert_eq!(dict.get(b"Type").unwrap().as_name().unwrap(), b"Page");
        assert_eq!(dict.get(b"MediaBox").unwrap().as_array().unwrap(), &mb);
    }
}

#[test]
fn arrange_last_booklet_blanks_at_end() {
    let (mut doc, ids, _) = sample_document(10, &[]);
    let m = doc.max_id;
    let mb = blank_media_box(&doc, ids[0]);
    let order = arrange_booklet(&mut doc, &ids, 4, 2, false, false, &mb).unwrap();
    assert_eq!(order, vec![(m + 2, 0), ids[8], ids[9], (m + 1, 0)]);
}

#[test]
fn arrange_right_to_left() {
    let (mut doc, ids, _) = sample_document(8, &[]);
    let mb = blank_media_box(&doc, ids[0]);
    let order = arrange_booklet(&mut doc, &ids, 8, 0, false, true, &mb).unwrap();
    let expected: Vec<ObjectId> = [0, 7, 6, 1, 2, 5, 4, 3].iter().map(|&i| ids[i]).collect();
    assert_eq!(order, expected);
}

#[test]
fn arrange_whole_document_holds_every_page_once() {
    let (mut doc, ids, _) = sample_document(13, &[]);
    let m = doc.max_id;
    let plan = plan_booklets(&doc, 0).unwrap();
    let mb = blank_media_box(&doc, ids[0]);
    let mut all = Vec::new();
    for i in 0..plan.booklet_count {
        all.extend(arrange_booklet(&mut doc, &plan.pages, plan.per_booklet, i, true, false, &mb).unwrap());
    }
    assert_eq!(all.len(), 16);
    let mut expected = ids.clone();
    expected.extend([(m + 1, 0), (m + 2, 0), (m + 3, 0)]);
    expected.sort();
    all.sort();
    assert_eq!(all, expected);
}

#[test]
fn arrange_fails_without_object_numbers() {
    let (mut doc, ids, _) = sample_document(3, &[]);
    doc.max_id = u32::MAX;
    let mb = blank_media_box(&doc, ids[0]);
    let copy = doc.clone();
    assert!(matches!(
        arrange_booklet(&mut doc, &ids, 4, 0, true, false, &mb),
        Err(BookletError::ObjectNumbersExhausted)
    ));
    assert_eq!(doc.objects, copy.objects);
    assert_eq!(doc.max_id, u32::MAX);
}

#[test]
fn turn_back_pages_turns_backs_only() {
    let rotations = [Some(90), None, Some(0), Some(270), Some(180), None, None, Some(-90)];
    let (mut doc, ids, _) = sample_document(8, &rotations);
    turn_back_pages(&mut doc, &ids).unwrap();
    let rotate = |doc: &Document, id| dict_of(doc, id).get(b"Rotate").ok().map(|o| o.as_i64().unwrap());
    assert_eq!(rotate(&doc, ids[0]), Some(90));
    assert_eq!(rotate(&doc, ids[1]), None);
    assert_eq!(rotate(&doc, ids[2]), Some(180));
    assert_eq!(rotate(&doc, ids[3]), Some(90));
    assert_eq!(rotate(&doc, ids[4]), Some(180));
    assert_eq!(rotate(&doc, ids[5]), None);
    assert_eq!(rotate(&doc, ids[6]), Some(180));
    assert_eq!(rotate(&doc, ids[7]), Some(90));
}

#[test]
fn turn_back_pages_twice_restores() {
    let rotations = [Some(0), Some(90), Some(180), Some(270)];
    let (mut doc, ids, _) = sample_document(4, &rotations);
    turn_back_pages(&mut doc, &ids).unwrap();
    turn_back_pages(&mut doc, &ids).unwrap();
    for (i, r) in rotations.iter().enumerate() {
        assert_eq!(dict_of(&doc, ids[i]).get(b"Rotate").unwrap().as_i64().unwrap(), r.unwrap());
    }
}

#[test]
fn turn_back_pages_skips_non_dictionaries() {
    let (mut doc, mut ids, _) = sample_document(2, &[]);
    let number = doc.add_object(Object::Integer(5));
    ids.push(number);
    ids.push((9999, 0));
    turn_back_pages(&mut doc, &ids).unwrap();
    assert_eq!(doc.get_object(number).unwrap(), &Object::Integer(5));
}

#[test]
fn turn_back_pages_rejects_huge_rotation() {
    let rotations = [None, None, Some(i64::MAX)];
    let (mut doc, ids, _) = sample_document(3, &rotations);
    assert!(matches!(turn_back_pages(&mut doc, &ids), Err(BookletError::RotationOutOfRange)));
}

#[test]
fn pages_tree_lists_pages_and_parents_them() {
    let (mut doc, ids, _) = sample_document(4, &[]);
    let m = doc.max_id;
    let order = vec![ids[3], ids[0], ids[1], ids[2]];
    let tree = recreate_pages_tree(&mut doc, &order).unwrap();
    assert_eq!(tree, (m + 1, 0));
    let dict = dict_of(&doc, tree);
    assert_eq!(dict.get(b"Type").unwrap().as_name().unwrap(), b"Pages");
    assert_eq!(dict.get(b"Count").unwrap().as_i64().unwrap(), 4);
    let kids: Vec<ObjectId> =
        dict.get(b"Kids").unwrap().as_array().unwrap().iter().map(|o| o.as_reference().unwrap()).collect();
    assert_eq!(kids, order);
    for id in &order {
        assert_eq!(dict_of(&doc, *id).get(b"Parent").unwrap().as_reference().unwrap(), tree);
    }
}

#[test]
fn pages_tree_fails_without_object_numbers() {
    let (mut doc, ids, _) = sample_document(2, &[]);
    doc.max_id = u32::MAX;
    assert!(matches!(recreate_pages_tree(&mut doc, &ids), Err(BookletError::ObjectNumbersExhausted)));
}

#[test]
fn catalog_points_to_new_tree() {
    let (mut doc, ids, catalog) = sample_document(4, &[]);
    let tree = recreate_pages_tree(&mut doc, &ids).unwrap();
    update_catalog(&mut doc, tree).unwrap();
    assert_eq!(dict_of(&doc, catalog).get(b"Pages").unwrap().as_reference().unwrap(), tree);
    let pages: Vec<ObjectId> = doc.get_pages().into_values().collect();
    assert_eq!(pages, ids);
}

#[test]
fn catalog_without_root() {
    let (mut doc, _, _) = sample_document(1, &[]);
    doc.trailer.remove(b"Root");
    assert_eq!(update_catalog(&mut doc, (1, 0)), Err(BookletError::NoRootInTrailer));
}

#[test]
fn catalog_root_not_reference() {
    let (mut doc, _, _) = sample_document(1, &[]);
    doc.trailer.set("Root", Object::Integer(3));
    assert_eq!(update_catalog(&mut doc, (1, 0)), Err(BookletError::RootNotReference));
}

#[test]
fn catalog_not_dictionary() {
    let (mut doc, _, _) = sample_document(1, &[]);
    let number = doc.add_object(Object::Integer(3));
    doc.trailer.set("Root", Object::Reference(number));
    assert_eq!(update_catalog(&mut doc, (1, 0)), Err(BookletError::CatalogNotDictionary));
    doc.trailer.set("Root", Object::Reference((9999, 0)));
    assert_eq!(update_catalog(&mut doc, (1, 0)), Err(BookletError::CatalogNotDictionary));
}

#[test]
fn booklet_document_reads_in_booklet_order() {
    let (mut doc, ids, _) = sample_document(6, &[]);
    let plan = plan_booklets(&doc, 0).unwrap();
    let mb = blank_media_box(&doc, plan.pages[0]);
    let order = arrange_booklet(&mut doc, &plan.pages, plan.per_booklet, 0, true, false, &mb).unwrap();
    let tree = recreate_pages_tree(&mut doc, &order).unwrap();
    update_catalog(&mut doc, tree).unwrap();
    let pages: Vec<ObjectId> = doc.get_pages().into_values().collect();
    assert_eq!(pages, order);
    assert_eq!(pages.len(), 8);
    assert_eq!(pages[0], ids[5]);
    assert_eq!(pages[1], ids[0]);
}

#[test]
fn install_page_order_rebuilds_and_prunes() {
    let (mut doc, ids, catalog) = sample_document(4, &[]);
    let old_tree = dict_of(&doc, catalog).get(b"Pages").unwrap().as_reference().unwrap();
    let stray = doc.add_object(Object::Integer(42));
    let m = doc.max_id;
    let order = vec![ids[3], ids[0], ids[1], ids[2]];
    let tree = install_page_order(&mut doc, &order).unwrap();
    assert_eq!(tree, (m + 1, 0));
    let pages: Vec<ObjectId> = doc.get_pages().into_values().collect();
    assert_eq!(pages, order);
    assert!(!doc.objects.contains_key(&stray));
    assert!(!doc.objects.contains_key(&old_tree));
    assert!(doc.objects.contains_key(&tree));
    assert!(doc.objects.contains_key(&catalog));
}

#[test]
fn install_page_order_reports_catalog_errors() {
    let (mut doc, ids, _) = sample_document(2, &[]);
    doc.trailer.remove(b"Root");
    let m = doc.max_id;
    assert_eq!(install_page_order(&mut doc, &ids), Err(BookletError::NoRootInTrailer));
    assert_eq!(doc.max_id, m + 1);
    assert!(doc.objects.contains_key(&(m + 1, 0)));
}

#[test]
fn install_page_order_without_object_numbers() {
    let (mut doc, ids, _) = sample_document(2, &[]);
    doc.max_id = u32::MAX;
    let before = doc.objects.clone();
    assert_eq!(install_page_order(&mut doc, &ids), Err(BookletError::ObjectNumbersExhausted));
    assert_eq!(doc.objects, before);
}

#[test]
fn booklet_document_leaves_source_alone() {
    let (doc, ids, _) = sample_document(4, &[]);
    let before = doc.objects.clone();
    let order = vec![ids[1], ids[2]];
    let out = booklet_document(&doc, &order).unwrap();
    assert_eq!(doc.objects, before);
    let pages: Vec<ObjectId> = out.get_pages().into_values().collect();
    assert_eq!(pages, order);
    assert!(!out.objects.contains_key(&ids[0]));
    assert!(!out.objects.contains_key(&ids[3]));
    assert_eq!(out.max_id, doc.max_id + 1);
}

#[test]
fn booklet_document_reports_errors() {
    let (mut doc, ids, _) = sample_document(2, &[]);
    doc.trailer.set("Root", Object::Integer(1));
    assert!(matches!(booklet_document(&doc, &ids), Err(BookletError::RootNotReference)));
}

#[test]
fn reorder_joins_every_booklet() {
    let (mut doc, ids, _) = sample_document(10, &[]);
    let m = doc.max_id;
    let plan = plan_booklets(&doc, 4).unwrap();
    let joined = reorder_booklets(&mut doc, &plan, true, false, false).unwrap();
    let b1 = (m + 1, 0);
    let b2 = (m + 2, 0);
    assert_eq!(
        joined,
        vec![ids[3], ids[0], ids[1], ids[2], ids[7], ids[4], ids[5], ids[6], ids[9], ids[8], b1, b2]
    );
    assert_eq!(doc.max_id, m + 2);
    let mut sorted = joined.clone();
    sorted.sort();
    let mut expected = ids.clone();
    expected.extend([b1, b2]);
    expected.sort();
    assert_eq!(sorted, expected);
}

#[test]
fn reorder_turns_backs_of_every_booklet() {
    let (mut doc, ids, _) = sample_document(8, &[]);
    let plan = plan_booklets(&doc, 4).unwrap();
    let joined = reorder_booklets(&mut doc, &plan, false, true, false).unwrap();
    for (pos, id) in joined.iter().enumerate() {
        let rotate = dict_of(&doc, *id).get(b"Rotate").ok().map(|o| o.as_i64().unwrap());
        let expected = if (pos / 2) % 2 == 1 { Some(180) } else { None };
        assert_eq!(rotate, expected, "position {}", pos);
    }
    assert_eq!(joined.len(), ids.len());
}

#[test]
fn reorder_reports_huge_rotation() {
    let rotations = [None, Some(i64::MAX), None, None];
    let (mut doc, _, _) = sample_document(4, &rotations);
    let plan = plan_booklets(&doc, 4).unwrap();
    // page 1 lands at position 2, a back side
    assert!(matches!(reorder_booklets(&mut doc, &plan, false, true, false), Err(BookletError::RotationOutOfRange)));
}

#[test]
fn reorder_without_object_numbers() {
    let (mut doc, _, _) = sample_document(3, &[]);
    doc.max_id = u32::MAX - 1;
    let plan = plan_booklets(&doc, 0).unwrap();
    let mut roomy = doc.clone();
    assert!(reorder_booklets(&mut roomy, &plan, false, false, false).is_ok());
    doc.max_id = u32::MAX;
    assert!(matches!(reorder_booklets(&mut doc, &plan, false, false, false), Err(BookletError::ObjectNumbersExhausted)));
}

#[test]
fn catalog_last_pointer_wins() {
    let (mut doc, ids, catalog) = sample_document(2, &[]);
    let first = recreate_pages_tree(&mut doc, &ids).unwrap();
    let second = recreate_pages_tree(&mut doc, &ids[..1]).unwrap();
    let mut twice = doc.clone();
    update_catalog(&mut twice, first).unwrap();
    update_catalog(&mut twice, second).unwrap();
    let mut once = doc.clone();
    update_catalog(&mut once, second).unwrap();
    assert_eq!(twice.objects, once.objects);
    let mut again = once.clone();
    update_catalog(&mut again, second).unwrap();
    assert_eq!(again.objects, once.objects);
    assert_eq!(dict_of(&once, catalog).get(b"Pages").unwrap().as_reference().unwrap(), second);
}

#[test]
fn crafted_page_count_does_not_panic() {
    let mut doc = Document::with_version("1.5");
    let root_pages = doc.new_object_id();
    let mut page = page_dict(Some(vec![0, 0, 300, 400]), None);
    page.set("Parent", Object::Reference(root_pages));
    let page_id = doc.add_object(page);
    let mut inner = Dictionary::new();
    inner.set("Type", Object::Name(b"Pages".to_vec()));
    inner.set("Count", Object::Integer(i64::MAX));
    inner.set("Kids", Object::Array(vec![]));
    let inner_id = doc.add_object(inner);
    let mut pages = Dictionary::new();
    pages.set("Type", Object::Name(b"Pages".to_vec()));
    pages.set("Count", Object::Integer(1));
    pages.set("Kids", Object::Array(vec![Object::Reference(page_id), Object::Reference(inner_id)]));
    doc.objects.insert(root_pages, Object::Dictionary(pages));
    let mut catalog = Dictionary::new();
    catalog.set("Type", Object::Name(b"Catalog".to_vec()));
    catalog.set("Pages", Object::Reference(root_pages));
    let catalog_id = doc.add_object(catalog);
    doc.trailer.set("Root", Object::Reference(catalog_id));
    let plan = plan_booklets(&doc, 0).unwrap();
    assert_eq!(plan.pages, vec![page_id]);
}

#[test]
fn object_room() {
    let (mut doc, _, _) = sample_document(1, &[]);
    assert!(has_object_room(&doc));
    doc.max_id = u32::MAX;
    assert!(!has_object_room(&doc));
    doc.max_id = u32::MAX - 1;
    assert!(has_object_room(&doc));
}

#[test]
fn one_document_per_booklet() {
    let (mut doc, ids, _) = sample_document(10, &[]);
    let m = doc.max_id;
    let plan = plan_booklets(&doc, 4).unwrap();
    let docs = booklet_documents(&mut doc, &plan, true, true, false).unwrap();
    assert_eq!(docs.len(), 3);
    let expected = [
        vec![ids[3], ids[0], ids[1], ids[2]],
        vec![ids[7], ids[4], ids[5], ids[6]],
        vec![ids[9], ids[8], (m + 1, 0), (m + 2, 0)],
    ];
    for (out, pages) in docs.iter().zip(expected.iter()) {
        let listed: Vec<ObjectId> = out.page_iter().collect();
        assert_eq!(&listed, pages);
        for (pos, id) in pages.iter().enumerate() {
            let rotate = dict_of(out, *id).get(b"Rotate").ok().map(|o| o.as_i64().unwrap());
            let turned = if (pos / 2) % 2 == 1 { Some(180) } else { None };
            assert_eq!(rotate, turned);
        }
    }
    assert!(!docs[0].objects.contains_key(&ids[4]));
    assert_eq!(doc.max_id, m + 2);
}

#[test]
fn one_document_per_booklet_reports_catalog_error() {
    let (mut doc, _, _) = sample_document(5, &[]);
    let plan = plan_booklets(&doc, 4).unwrap();
    doc.trailer.remove(b"Root");
    assert!(matches!(booklet_documents(&mut doc, &plan, false, false, false), Err(BookletError::NoRootInTrailer)));
}

#[test]
fn saved_bytes_load_back() {
    let (mut doc, ids, _) = sample_document(5, &[None, Some(90)]);
    let plan = plan_booklets(&doc, 4).unwrap();
    let joined = reorder_booklets(&mut doc, &plan, false, false, false).unwrap();
    install_page_order(&mut doc, &joined).unwrap();
    let bytes = document_bytes(doc).unwrap();
    assert!(bytes.starts_with(b"%PDF-1.5"));
    let loaded = Document::load_mem(&bytes).unwrap();
    let pages: Vec<ObjectId> = loaded.page_iter().collect();
    assert_eq!(pages, joined);
    assert_eq!(dict_of(&loaded, ids[1]).get(b"Rotate").unwrap().as_i64().unwrap(), 90);
}

#[test]
fn saving_needs_two_object_numbers() {
    let (mut doc, _, _) = sample_document(2, &[]);
    doc.max_id = u32::MAX - 1;
    assert!(matches!(document_bytes(doc), Err(BookletError::ObjectNumbersExhausted)));
    let (mut doc, _, _) = sample_document(2, &[]);
    doc.max_id = u32::MAX;
    assert!(matches!(document_bytes(doc), Err(BookletError::ObjectNumbersExhausted)));
}

#[test]
fn right_to_left_swaps_every_side() {
    let (doc, _, _) = sample_document(10, &[]);
    let mut ltr_doc = doc.clone();
    let mut rtl_doc = doc;
    let plan = plan_booklets(&ltr_doc, 8).unwrap();
    let ltr = reorder_booklets(&mut ltr_doc, &plan, false, false, false).unwrap();
    let rtl = reorder_booklets(&mut rtl_doc, &plan, false, false, true).unwrap();
    assert_eq!(ltr.len(), 16);
    assert_eq!(rtl.len(), 16);
    for m in 0..8 {
        assert_eq!(rtl[2 * m], ltr[2 * m + 1]);
        assert_eq!(rtl[2 * m + 1], ltr[2 * m]);
    }
}

#[test]
fn blank_pages_keep_earlier_resolution() {
    let (mut doc, ids, _) = sample_document(5, &[]);
    let alias = doc.add_object(Object::Reference(ids[4]));
    let mut plan = plan_booklets(&doc, 4).unwrap();
    plan.pages[4] = alias;
    let joined = reorder_booklets(&mut doc, &plan, false, true, false).unwrap();
    assert_eq!(joined.len(), 8);
    // the page reached through a reference is still found, and was turned
    // where its position lies on a back side
    let pos = joined.iter().position(|&id| id == alias).unwrap();
    let rotate = dict_of(&doc, alias).get(b"Rotate").ok().map(|o| o.as_i64().unwrap());
    let expected = if (pos / 2) % 2 == 1 { Some(180) } else { None };
    assert_eq!(rotate, expected);
}

#[test]
fn installed_order_is_read_back() {
    let (mut doc, ids, _) = sample_document(6, &[]);
    let order = vec![ids[5], ids[0], ids[3], ids[2], ids[1], ids[4]];
    install_page_order(&mut doc, &order).unwrap();
    let plan = plan_booklets(&doc, 4).unwrap();
    assert_eq!(plan.pages, order);
    let reversed: Vec<ObjectId> = order.iter().rev().cloned().collect();
    let copy = booklet_document(&doc, &reversed).unwrap();
    assert_eq!(plan_booklets(&copy, 4).unwrap().pages, reversed);
    assert_eq!(plan_booklets(&doc, 4).unwrap().pages, order);
}

#[test]
fn pruning_keeps_deeply_nested_references() {
    let (mut doc, ids, catalog) = sample_document(2, &[]);
    let deep = doc.add_object(Object::Integer(7));
    let stray = doc.add_object(Object::Integer(8));
    let mut inner = Dictionary::new();
    inner.set("Deep", Object::Array(vec![Object::Array(vec![Object::Reference(deep)])]));
    doc.get_object_mut(catalog)
        .unwrap()
        .as_dict_mut()
        .unwrap()
        .set("Extra", Object::Dictionary(inner));
    install_page_order(&mut doc, &ids).unwrap();
    assert!(doc.objects.contains_key(&deep));
    assert!(!doc.objects.contains_key(&stray));
}

#[test]
fn form_xobject_frames_the_page() {
    let (mut doc, ids, _) = sample_document(2, &[]);
    let mut res = Dictionary::new();
    res.set("Font", Object::Dictionary(Dictionary::new()));
    doc.get_object_mut(ids[0]).unwrap().as_dict_mut().unwrap().set("Resources", Object::Dictionary(res.clone()));
    let m = doc.max_id;
    let matrix = vec![Object::Integer(1), Object::Integer(0), Object::Integer(0), Object::Integer(1), Object::Real(-5.0), Object::Real(0.0)];
    let id = create_form_xobject(&mut doc, ids[0], matrix.clone(), b"q Q".to_vec()).unwrap();
    assert_eq!(id, (m + 1, 0));
    assert_eq!(doc.max_id, m + 1);
    let stream = doc.get_object(id).unwrap().as_stream().unwrap();
    assert_eq!(stream.content, b"q Q".to_vec());
    let d = &stream.dict;
    assert_eq!(d.get(b"Type").unwrap().as_name().unwrap(), b"XObject");
    assert_eq!(d.get(b"Subtype").unwrap().as_name().unwrap(), b"Form");
    assert_eq!(d.get(b"FormType").unwrap().as_i64().unwrap(), 1);
    assert_eq!(
        d.get(b"BBox").unwrap().as_array().unwrap(),
        &vec![Object::Integer(0), Object::Integer(0), Object::Integer(300), Object::Integer(400)]
    );
    assert_eq!(d.get(b"Resources").unwrap(), &Object::Dictionary(res));
    assert_eq!(d.get(b"Matrix").unwrap().as_array().unwrap(), &matrix);
    assert_eq!(d.get(b"Length").unwrap().as_i64().unwrap(), 3);
    assert_eq!(d.len(), 7);
}

#[test]
fn form_xobject_defaults_and_missing_pages() {
    let mut doc = Document::with_version("1.5");
    let bare = doc.add_object(page_dict(None, None));
    let id = create_form_xobject(&mut doc, bare, vec![], vec![]).unwrap();
    let d = &doc.get_object(id).unwrap().as_stream().unwrap().dict;
    assert_eq!(
        d.get(b"BBox").unwrap().as_array().unwrap(),
        &vec![Object::Integer(0), Object::Integer(0), Object::Integer(595), Object::Integer(842)]
    );
    assert!(d.get(b"Resources").is_err());
    assert_eq!(d.get(b"Length").unwrap().as_i64().unwrap(), 0);
    let id = create_form_xobject(&mut doc, (999, 0), vec![], vec![1, 2]).unwrap();
    let d = &doc.get_object(id).unwrap().as_stream().unwrap().dict;
    assert!(d.get(b"BBox").is_err());
    assert_eq!(d.len(), 5);
    doc.max_id = u32::MAX;
    assert!(matches!(create_form_xobject(&mut doc, bare, vec![], vec![]), Err(BookletError::ObjectNumbersExhausted)));
}

#[test]
fn reordered_and_installed_pages_read_back_in_order() {
    let (mut doc, _, _) = sample_document(7, &[Some(90)]);
    let plan = plan_booklets(&doc, 4).unwrap();
    let joined = reorder_booklets(&mut doc, &plan, true, true, true).unwrap();
    assert_eq!(joined.len(), 8);
    let mut distinct = joined.clone();
    distinct.sort();
    distinct.dedup();
    assert_eq!(distinct.len(), 8);
    install_page_order(&mut doc, &joined).unwrap();
    assert_eq!(plan_booklets(&doc, 4).unwrap().pages, joined);
    for id in &joined {
        assert_eq!(dict_of(&doc, *id).get(b"Type").unwrap().as_name().unwrap(), b"Page");
    }
}
