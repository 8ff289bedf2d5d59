use std::collections::HashMap;

use collab_sync::collab_type::CollabType;
use collab_sync::index::{
    collect_indexed_at, contains_id, fragments_from_chunks, has_distinct_fragment_ids,
    resolve_index_status, resolve_status_query, AFCollabEmbeddedChunk, CollabId, EmbeddingContentType, Fragment,
    IndexError, IndexStatusRow, IndexStore, IndexingStatus, QueryCollab, QueryCollabParams, StatusQuery,
};
use collab_sync::object_id::ObjectId;

fn times(pairs: &[(u128, i64)]) -> HashMap<u128, i64> {
    pairs.iter().copied().collect()
}

fn id(n: u128) -> ObjectId {
    ObjectId::from_u128(n)
}

fn chunk(object: u128, fragment: &str, index: i32) -> AFCollabEmbeddedChunk {
    AFCollabEmbeddedChunk {
        fragment_id: fragment.to_string(),
        object_id: id(object),
        content_type: EmbeddingContentType::PlainText,
        content: format!("text of {fragment}"),
        embedding: Some(vec![1.5f32.to_bits(), (-0.25f32).to_bits()]),
        metadata: "{}".to_string(),
        fragment_index: index,
        embedded_type: 0,
    }
}

fn fragment(fragment: &str, index: i32) -> Fragment {
    Fragment {
        fragment_id: fragment.to_string(),
        content_type: 0,
        contents: format!("text of {fragment}"),
        embedding: Some(vec![1.5f32.to_bits(), (-0.25f32).to_bits()]),
        metadata: "{}".to_string(),
        fragment_index: index,
        embedded_type: 0,
    }
}

fn backlog(store: &IndexStore, workspace: u128, limit: i64) -> Vec<u128> {
    store.stream_collabs_without_embeddings(id(workspace), limit).iter().map(|c| c.object_id.as_u128()).collect()
}

/// Workspace 1 with objects 11 (changed at 100), 12 (300), 13 (200);
/// workspace 2, opted out, with object 21.
fn store() -> IndexStore {
    let mut s = IndexStore::new();
    s.add_workspace(id(1), None).unwrap();
    s.add_workspace(id(2), Some(true)).unwrap();
    s.add_collab(id(1), id(11), CollabType::Document, 100).unwrap();
    s.add_collab(id(1), id(12), CollabType::Document, 300).unwrap();
    s.add_collab(id(2), id(21), CollabType::Document, 150).unwrap();
    s.add_collab(id(1), id(13), CollabType::Database, 200).unwrap();
    s
}

#[test]
fn status_is_resolved_from_the_row() {
    let row = |disable_search_indexing, has_index| Some(IndexStatusRow { disable_search_indexing, has_index });
    assert_eq!(resolve_index_status(None), IndexingStatus::NotIndexed);
    assert_eq!(resolve_index_status(row(Some(true), Some(true))), IndexingStatus::Disabled);
    assert_eq!(resolve_index_status(row(Some(true), Some(false))), IndexingStatus::Disabled);
    assert_eq!(resolve_index_status(row(Some(true), None)), IndexingStatus::Disabled);
    assert_eq!(resolve_index_status(row(Some(false), Some(true))), IndexingStatus::Indexed);
    assert_eq!(resolve_index_status(row(None, Some(true))), IndexingStatus::Indexed);
    assert_eq!(resolve_index_status(row(Some(false), Some(false))), IndexingStatus::NotIndexed);
    assert_eq!(resolve_index_status(row(None, None)), IndexingStatus::NotIndexed);
    assert_eq!(resolve_index_status(row(Some(false), None)), IndexingStatus::NotIndexed);
}

#[test]
fn chunks_become_fragments() {
    assert_eq!(Fragment::from(chunk(1, "f", 3)), fragment("f", 3));
    let mut lexical = chunk(1, "g", 0);
    lexical.embedding = None;
    lexical.embedded_type = 2;
    let stored = Fragment::from(lexical);
    assert_eq!(stored.embedding, None);
    assert_eq!(stored.embedded_type, 2);
    assert_eq!(
        fragments_from_chunks(vec![chunk(1, "a", 0), chunk(1, "b", 1), chunk(1, "c", 2)]),
        vec![fragment("a", 0), fragment("b", 1), fragment("c", 2)]
    );
    assert_eq!(fragments_from_chunks(vec![]), vec![]);
    assert!(has_distinct_fragment_ids(&vec![fragment("a", 0), fragment("b", 0)]));
    assert!(!has_distinct_fragment_ids(&vec![fragment("a", 0), fragment("b", 1), fragment("a", 2)]));
    assert!(has_distinct_fragment_ids(&vec![]));
}

#[test]
fn disabled_workspace_reports_disabled_whatever_exists() {
    let mut s = store();
    assert_eq!(s.get_index_status(&id(2), &id(21)), IndexingStatus::Disabled);
    assert_eq!(s.get_index_status(&id(2), &id(999)), IndexingStatus::Disabled);
    // Fragments written before the workspace opted out are kept, and the
    // status is `Disabled` all the same.
    s.upsert_collab_embeddings(&id(1), &id(11), 5, vec![chunk(11, "a", 0)]).unwrap();
    assert_eq!(s.get_index_status(&id(1), &id(11)), IndexingStatus::Indexed);
    s.set_disable_search_indexing(&id(1), true).unwrap();
    assert_eq!(s.get_index_status(&id(1), &id(11)), IndexingStatus::Disabled);
    assert_eq!(s.get_index_status(&id(1), &id(12)), IndexingStatus::Disabled);
    s.set_disable_search_indexing(&id(1), false).unwrap();
    assert_eq!(s.get_index_status(&id(1), &id(11)), IndexingStatus::Indexed);
    assert_eq!(s.set_disable_search_indexing(&id(9), true), Err(IndexError::UnknownWorkspace));
}

#[test]
fn object_without_a_workspace_row_is_not_indexed() {
    let mut s = IndexStore::new();
    assert_eq!(s.get_index_status(&id(1), &id(11)), IndexingStatus::NotIndexed);
    s.add_collab(id(1), id(11), CollabType::Document, 1).unwrap();
    assert_eq!(s.get_index_status(&id(1), &id(11)), IndexingStatus::NotIndexed);
    assert_eq!(store().get_index_status(&id(7), &id(11)), IndexingStatus::NotIndexed);
}

#[test]
fn upsert_then_status_is_indexed() {
    let mut s = store();
    assert_eq!(s.get_index_status(&id(1), &id(12)), IndexingStatus::NotIndexed);
    assert_eq!(s.upsert_collab_embeddings(&id(1), &id(12), 42, vec![chunk(12, "b", 1), chunk(12, "a", 0)]), Ok(()));
    assert_eq!(s.get_index_status(&id(1), &id(12)), IndexingStatus::Indexed);
    assert_eq!(s.get_index_status(&id(1), &id(11)), IndexingStatus::NotIndexed);
    // Replaced wholesale.
    assert_eq!(s.upsert_collab_embeddings(&id(1), &id(12), 1, vec![chunk(12, "c", 0)]), Ok(()));
    assert_eq!(s.get_index_status(&id(1), &id(12)), IndexingStatus::Indexed);
    // An empty set leaves the object without fragments.
    assert_eq!(s.upsert_collab_embeddings(&id(1), &id(12), 0, vec![]), Ok(()));
    assert_eq!(s.get_index_status(&id(1), &id(12)), IndexingStatus::NotIndexed);
}

#[test]
fn refused_upsert_changes_nothing() {
    let mut s = store();
    s.upsert_collab_embeddings(&id(1), &id(11), 5, vec![chunk(11, "a", 0)]).unwrap();
    s.update_collab_indexed_at(&id(11), &CollabType::Document, 100);
    let before = s.get_collabs_indexed_at(vec![id(11), id(12), id(13)]);
    let duplicate = vec![chunk(11, "x", 0), chunk(11, "y", 1), chunk(11, "x", 2)];
    assert_eq!(s.upsert_collab_embeddings(&id(1), &id(11), 9, duplicate), Err(IndexError::DuplicateFragment));
    assert_eq!(s.upsert_collab_embeddings(&id(9), &id(11), 9, vec![]), Err(IndexError::UnknownWorkspace));
    assert_eq!(s.upsert_collab_embeddings(&id(1), &id(99), 9, vec![]), Err(IndexError::UnknownObject));
    assert_eq!(s.upsert_collab_embeddings(&id(2), &id(11), 9, vec![]), Err(IndexError::UnknownObject));
    assert_eq!(s.get_index_status(&id(1), &id(11)), IndexingStatus::Indexed);
    assert_eq!(s.get_collabs_indexed_at(vec![id(11), id(12), id(13)]), before);
    assert_eq!(backlog(&s, 1, 10), vec![12, 13]);
}

#[test]
fn backlog_scenario() {
    let mut s = IndexStore::new();
    s.add_workspace(id(1), Some(false)).unwrap();
    s.add_collab(id(1), id(11), CollabType::Document, 100).unwrap();
    assert_eq!(
        s.stream_collabs_without_embeddings(id(1), 10),
        vec![CollabId { collab_type: CollabType::Document, workspace_id: id(1), object_id: id(11) }]
    );
    s.upsert_collab_embeddings(&id(1), &id(11), 3, vec![chunk(11, "a", 0)]).unwrap();
    // Written but not yet marked: still in the backlog.
    assert_eq!(backlog(&s, 1, 10), vec![11]);
    s.update_collab_indexed_at(&id(11), &CollabType::Document, 100);
    assert_eq!(backlog(&s, 1, 10), Vec::<u128>::new());
    assert_eq!(backlog(&s, 1, 10), Vec::<u128>::new());
    s.touch(&id(11), 101).unwrap();
    assert_eq!(backlog(&s, 1, 10), vec![11]);
    s.update_collab_indexed_at(&id(11), &CollabType::Document, 101);
    assert_eq!(backlog(&s, 1, 10), Vec::<u128>::new());
}

#[test]
fn backlog_is_most_recently_changed_first_and_bounded() {
    let mut s = store();
    assert_eq!(backlog(&s, 1, 10), vec![12, 13, 11]);
    assert_eq!(backlog(&s, 1, 3), vec![12, 13, 11]);
    assert_eq!(backlog(&s, 1, 2), vec![12, 13]);
    assert_eq!(backlog(&s, 1, 1), vec![12]);
    assert_eq!(backlog(&s, 1, 0), Vec::<u128>::new());
    assert_eq!(backlog(&s, 1, -1), Vec::<u128>::new());
    assert_eq!(backlog(&s, 1, i64::MAX), vec![12, 13, 11]);
    assert_eq!(backlog(&s, 2, 10), Vec::<u128>::new());
    assert_eq!(backlog(&s, 3, 10), Vec::<u128>::new());
    s.touch(&id(11), 1000).unwrap();
    assert_eq!(backlog(&s, 1, 2), vec![11, 12]);
    s.update_collab_indexed_at(&id(12), &CollabType::Document, 300);
    assert_eq!(backlog(&s, 1, 10), vec![11, 13]);
    s.set_disable_search_indexing(&id(1), true).unwrap();
    assert_eq!(backlog(&s, 1, 10), Vec::<u128>::new());
    s.set_disable_search_indexing(&id(2), false).unwrap();
    assert_eq!(
        s.stream_collabs_without_embeddings(id(2), 10),
        vec![CollabId { collab_type: CollabType::Document, workspace_id: id(2), object_id: id(21) }]
    );
}

#[test]
fn marking_needs_the_right_kind() {
    let mut s = store();
    s.update_collab_indexed_at(&id(13), &CollabType::Document, 500);
    assert_eq!(s.get_collabs_indexed_at(vec![id(13)]), times(&[]));
    s.update_collab_indexed_at(&id(99), &CollabType::Document, 500);
    s.update_collab_indexed_at(&id(13), &CollabType::Database, 150);
    assert_eq!(s.get_collabs_indexed_at(vec![id(13)]), times(&[(13, 150)]));
    // Indexed up to a time before the last change: still stale.
    assert_eq!(backlog(&s, 1, 10), vec![12, 13, 11]);
    s.update_collab_indexed_at(&id(13), &CollabType::Database, 200);
    assert_eq!(backlog(&s, 1, 10), vec![12, 11]);
}

#[test]
fn indexed_at_of_many_objects() {
    let mut s = store();
    s.update_collab_indexed_at(&id(11), &CollabType::Document, 7);
    s.update_collab_indexed_at(&id(13), &CollabType::Database, 9);
    s.update_collab_indexed_at(&id(21), &CollabType::Document, 8);
    assert_eq!(s.get_collabs_indexed_at(vec![id(13), id(12), id(11), id(99)]), times(&[(11, 7), (13, 9)]));
    assert_eq!(s.get_collabs_indexed_at(vec![id(21), id(21)]), times(&[(21, 8)]));
    assert_eq!(s.get_collabs_indexed_at(vec![]), times(&[]));
    assert_eq!(
        collect_indexed_at(vec![(id(1), Some(5)), (id(2), None), (id(3), Some(-1)), (id(1), Some(6))]),
        times(&[(3, -1), (1, 6)])
    );
    assert_eq!(collect_indexed_at(vec![]), times(&[]));
    assert!(contains_id(&vec![id(1), id(2)], &id(2)));
    assert!(!contains_id(&vec![id(1), id(2)], &id(3)));
}

#[test]
fn rows_are_unique() {
    let mut s = store();
    assert_eq!(s.add_workspace(id(1), Some(true)), Err(IndexError::WorkspaceExists));
    assert_eq!(s.add_collab(id(2), id(11), CollabType::Folder, 1), Err(IndexError::ObjectExists));
    assert_eq!(s.touch(&id(99), 1), Err(IndexError::UnknownObject));
    assert_eq!(s.get_index_status(&id(1), &id(11)), IndexingStatus::NotIndexed);
    assert_eq!(backlog(&s, 1, 10), vec![12, 13, 11]);
}

#[test]
fn backlog_entry_becomes_a_query() {
    let entry = CollabId { collab_type: CollabType::Folder, workspace_id: id(1), object_id: id(2) };
    assert_eq!(
        QueryCollabParams::from(entry),
        QueryCollabParams { workspace_id: id(1), inner: QueryCollab { object_id: id(2), collab_type: CollabType::Folder } }
    );
}

#[test]
fn indexing_an_object_marks_it_only_if_the_write_went_through() {
    let mut s = store();
    let duplicate = vec![chunk(12, "x", 0), chunk(12, "x", 1)];
    assert_eq!(
        s.index_collab(&id(1), &id(12), &CollabType::Document, 3, duplicate, 300),
        Err(IndexError::DuplicateFragment)
    );
    assert_eq!(s.get_collabs_indexed_at(vec![id(12)]), times(&[]));
    assert_eq!(s.get_index_status(&id(1), &id(12)), IndexingStatus::NotIndexed);
    assert_eq!(backlog(&s, 1, 10), vec![12, 13, 11]);
    assert_eq!(s.index_collab(&id(1), &id(12), &CollabType::Document, 3, vec![chunk(12, "x", 0)], 300), Ok(()));
    assert_eq!(s.get_collabs_indexed_at(vec![id(12)]), times(&[(12, 300)]));
    assert_eq!(s.get_index_status(&id(1), &id(12)), IndexingStatus::Indexed);
    assert_eq!(backlog(&s, 1, 10), vec![13, 11]);
    // The kind does not match: the fragments are written, the mark is not set.
    assert_eq!(s.index_collab(&id(1), &id(11), &CollabType::Folder, 3, vec![chunk(11, "y", 0)], 100), Ok(()));
    assert_eq!(s.get_index_status(&id(1), &id(11)), IndexingStatus::Indexed);
    assert_eq!(backlog(&s, 1, 10), vec![13, 11]);
}

#[test]
fn backlog_breaks_ties_by_row_order() {
    let mut s = IndexStore::new();
    s.add_workspace(id(1), None).unwrap();
    for (object, changed) in [(31u128, 5i64), (32, 9), (33, 5), (34, 9), (35, 1)] {
        s.add_collab(id(1), id(object), CollabType::Document, changed).unwrap();
    }
    assert_eq!(backlog(&s, 1, 10), vec![32, 34, 31, 33, 35]);
    assert_eq!(backlog(&s, 1, 3), vec![32, 34, 31]);
    s.update_collab_indexed_at(&id(32), &CollabType::Document, 9);
    assert_eq!(backlog(&s, 1, 3), vec![34, 31, 33]);
}

#[test]
fn status_query_passes_other_failures_on() {
    let row = IndexStatusRow { disable_search_indexing: None, has_index: Some(true) };
    assert_eq!(resolve_status_query::<String>(StatusQuery::Row(row)), Ok(IndexingStatus::Indexed));
    let off = IndexStatusRow { disable_search_indexing: Some(true), has_index: Some(true) };
    assert_eq!(resolve_status_query::<String>(StatusQuery::Row(off)), Ok(IndexingStatus::Disabled));
    assert_eq!(resolve_status_query::<String>(StatusQuery::RowNotFound), Ok(IndexingStatus::NotIndexed));
    assert_eq!(
        resolve_status_query(StatusQuery::Failed("pool closed".to_string())),
        Err("pool closed".to_string())
    );
}

#[test]
fn backlog_within_the_limit_is_returned_whole() {
    let mut s = IndexStore::new();
    s.add_workspace(id(1), None).unwrap();
    for n in 0..10u128 {
        s.add_collab(id(1), id(100 + n), CollabType::Document, 50 + n as i64).unwrap();
    }
    s.add_collab(id(1), id(7), CollabType::Document, 1).unwrap();
    // Ten objects changed more recently: the eleventh does not fit.
    assert_eq!(backlog(&s, 1, 10).len(), 10);
    assert!(!backlog(&s, 1, 10).contains(&7));
    assert_eq!(backlog(&s, 1, 11).len(), 11);
    assert_eq!(backlog(&s, 1, 11).last(), Some(&7));
    // With nine more recent rivals it is the tenth.
    s.update_collab_indexed_at(&id(100), &CollabType::Document, 50);
    assert_eq!(backlog(&s, 1, 10).len(), 10);
    assert_eq!(backlog(&s, 1, 10).last(), Some(&7));
    assert_eq!(backlog(&s, 1, 100).len(), 10);
}
