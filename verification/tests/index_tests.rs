use ricesearch::config::AppConfig;
use ricesearch::index::TantivyIndex;

#[test]
fn test_delete_document() {
    let mut index = TantivyIndex::new("index-data").unwrap();

    index.add_document("chunk1", "hello world").unwrap();
    index.commit().unwrap();

    assert_eq!(index.doc_count(), 1);

    index.delete_document("chunk1").unwrap();
    index.commit().unwrap();

    assert_eq!(index.doc_count(), 0);
}

#[test]
fn adding_a_chunk_twice_keeps_one_document() {
    let mut index = TantivyIndex::new("index-data").unwrap();
    index.add_document("chunk1", "first text").unwrap();
    index.add_document("chunk1", "second text").unwrap();
    index.commit().unwrap();
    assert_eq!(index.doc_count(), 1);
}

#[test]
fn nothing_counts_before_commit() {
    let mut index = TantivyIndex::new("index-data").unwrap();
    index.add_document("chunk1", "text").unwrap();
    assert_eq!(index.doc_count(), 0);
    index.commit().unwrap();
    assert_eq!(index.doc_count(), 1);
}

#[test]
fn deleting_an_absent_chunk_is_not_an_error() {
    let mut index = TantivyIndex::new("index-data").unwrap();
    index.delete_document("missing").unwrap();
    index.commit().unwrap();
    assert_eq!(index.doc_count(), 0);
}

#[test]
fn clear_drops_everything_at_once() {
    let mut index = TantivyIndex::new("index-data").unwrap();
    index.add_document("a", "one").unwrap();
    index.add_document("b", "two").unwrap();
    index.commit().unwrap();
    index.add_document("c", "three").unwrap();
    assert_eq!(index.doc_count(), 2);
    index.clear().unwrap();
    assert_eq!(index.doc_count(), 0);
    index.commit().unwrap();
    assert_eq!(index.doc_count(), 0);
}

#[test]
fn default_configuration_points_at_localhost() {
    let c = AppConfig::default();
    assert_eq!(c.backend_url, "http://localhost:8000");
    assert_eq!(c.user_id, "default-user");
}
