use picsav::embedding::{Embedding, Metric};
use picsav::ingest::{submit_media, ToggleOutcome};
use picsav::store::{Db, MediaType, DEFAULT_PAGE_SIZE};
use picsav::Error;

fn emb(comps: Vec<i64>) -> Embedding {
    Embedding::new(comps).unwrap()
}

fn ids_of(rows: &[picsav::store::ImageWithIds]) -> Vec<u64> {
    rows.iter().map(|r| r.id).collect()
}

#[test]
fn toggle_saves_then_removes_then_recreates() {
    let mut db = Db::new(2, Metric::Cosine, DEFAULT_PAGE_SIZE);
    let fp = b"abc".to_vec();

    assert_eq!(
        submit_media(&mut db, 42, &fp),
        ToggleOutcome::NeedEmbedding
    );
    let id = db
        .create_image(
            42,
            emb(vec![104857, 209715]),
            b"file-1".to_vec(),
            fp.clone(),
            MediaType::Photo,
            10,
        )
        .unwrap();
    assert_eq!(id, 1);
    assert_eq!(db.get_uses(id), Some(0));
    assert_eq!(db.get_all_images().len(), 1);

    // resubmitting the same fingerprint removes the record
    assert_eq!(submit_media(&mut db, 42, &fp), ToggleOutcome::Removed);
    assert_eq!(db.get_all_images().len(), 0);
    assert_eq!(db.get_most_used_images(42, None).len(), 0);

    // a third submission recreates it
    assert_eq!(
        submit_media(&mut db, 42, &fp),
        ToggleOutcome::NeedEmbedding
    );
    let id2 = db
        .create_image(
            42,
            emb(vec![104857, 209715]),
            b"file-1".to_vec(),
            fp.clone(),
            MediaType::Photo,
            11,
        )
        .unwrap();
    assert_eq!(id2, 2);
    assert_eq!(db.get_all_images().len(), 1);
}

#[test]
fn create_conflicts_on_duplicate_pair() {
    let mut db = Db::new(2, Metric::Cosine, DEFAULT_PAGE_SIZE);
    let fp = b"same".to_vec();
    db.create_image(1, emb(vec![1, 2]), b"f1".to_vec(), fp.clone(), MediaType::Photo, 1)
        .unwrap();
    let second = db.create_image(
        1,
        emb(vec![3, 4]),
        b"f2".to_vec(),
        fp.clone(),
        MediaType::Photo,
        2,
    );
    assert_eq!(second, Err(Error::Conflict));
    // another owner may store the same fingerprint
    db.create_image(2, emb(vec![3, 4]), b"f2".to_vec(), fp, MediaType::Photo, 3)
        .unwrap();
}

#[test]
fn delete_absent_is_benign() {
    let mut db = Db::new(2, Metric::Euclidean, DEFAULT_PAGE_SIZE);
    assert!(!db.delete_image(7, &b"nothing".to_vec()));
}

#[test]
fn popularity_orders_by_uses_then_recency() {
    let mut db = Db::new(2, Metric::Cosine, DEFAULT_PAGE_SIZE);
    for (fp, t) in [(b"a".to_vec(), 1u64), (b"b".to_vec(), 2), (b"c".to_vec(), 3)] {
        db.create_image(7, emb(vec![0, 0]), fp.clone(), fp, MediaType::Sticker, t)
            .unwrap();
    }
    // uses_count = [5, 2, 9] for ids [1, 2, 3]
    for _ in 0..5 {
        db.increment_image_uses(1, 7);
    }
    for _ in 0..2 {
        db.increment_image_uses(2, 7);
    }
    for _ in 0..9 {
        db.increment_image_uses(3, 7);
    }
    let rows = db.get_most_used_images(7, None);
    assert_eq!(ids_of(&rows), vec![3, 1, 2]);
}

#[test]
fn popularity_ties_break_by_creation_time_then_id() {
    let mut db = Db::new(2, Metric::Cosine, DEFAULT_PAGE_SIZE);
    db.create_image(5, emb(vec![0, 0]), b"f1".to_vec(), b"a".to_vec(), MediaType::Photo, 10)
        .unwrap();
    db.create_image(5, emb(vec![0, 0]), b"f2".to_vec(), b"b".to_vec(), MediaType::Photo, 20)
        .unwrap();
    db.create_image(5, emb(vec![0, 0]), b"f3".to_vec(), b"c".to_vec(), MediaType::Photo, 20)
        .unwrap();
    // equal uses everywhere: newest creation time first, then higher id
    let rows = db.get_most_used_images(5, None);
    assert_eq!(ids_of(&rows), vec![3, 2, 1]);
}

#[test]
fn semantic_search_orders_by_distance() {
    let mut db = Db::new(2, Metric::Euclidean, DEFAULT_PAGE_SIZE);
    db.create_image(9, emb(vec![100, 0]), b"far".to_vec(), b"a".to_vec(), MediaType::Photo, 1)
        .unwrap();
    db.create_image(9, emb(vec![0, 10]), b"near".to_vec(), b"b".to_vec(), MediaType::Photo, 2)
        .unwrap();
    db.create_image(9, emb(vec![50, 0]), b"mid".to_vec(), b"c".to_vec(), MediaType::Photo, 3)
        .unwrap();
    let q = emb(vec![0, 0]);
    let rows = db.search_images(9, &q, None);
    assert_eq!(ids_of(&rows), vec![2, 3, 1]);
}

#[test]
fn cosine_metric_prefers_larger_inner_product() {
    let mut db = Db::new(2, Metric::Cosine, DEFAULT_PAGE_SIZE);
    db.create_image(3, emb(vec![1000, 0]), b"x".to_vec(), b"a".to_vec(), MediaType::Photo, 1)
        .unwrap();
    db.create_image(3, emb(vec![0, 1000]), b"y".to_vec(), b"b".to_vec(), MediaType::Photo, 2)
        .unwrap();
    let q = emb(vec![0, 500]);
    let rows = db.search_images(3, &q, None);
    // the second record points the same way as the query
    assert_eq!(ids_of(&rows), vec![2, 1]);
}

#[test]
fn search_is_scoped_to_the_owner() {
    let mut db = Db::new(2, Metric::Euclidean, DEFAULT_PAGE_SIZE);
    db.create_image(1, emb(vec![0, 0]), b"f1".to_vec(), b"a".to_vec(), MediaType::Photo, 1)
        .unwrap();
    db.create_image(2, emb(vec![0, 0]), b"f2".to_vec(), b"b".to_vec(), MediaType::Photo, 2)
        .unwrap();
    let rows = db.search_images(1, &emb(vec![0, 0]), None);
    assert_eq!(ids_of(&rows), vec![1]);
}

#[test]
fn increment_is_scoped_and_never_decrements() {
    let mut db = Db::new(2, Metric::Cosine, DEFAULT_PAGE_SIZE);
    db.create_image(4, emb(vec![0, 0]), b"f".to_vec(), b"a".to_vec(), MediaType::Photo, 1)
        .unwrap();
    assert_eq!(db.get_uses(1), Some(0));
    // wrong owner: a benign no-op
    db.increment_image_uses(1, 999);
    assert_eq!(db.get_uses(1), Some(0));
    // absent record: a benign no-op
    db.increment_image_uses(77, 4);
    assert_eq!(db.get_uses(1), Some(0));
    db.increment_image_uses(1, 4);
    assert_eq!(db.get_uses(1), Some(1));
    // no other operation moves the counter
    db.update_user(4, 100);
    db.update_image(1, &emb(vec![5, 5]));
    db.create_image(4, emb(vec![0, 0]), b"g".to_vec(), b"b".to_vec(), MediaType::Photo, 2)
        .unwrap();
    assert_eq!(db.get_uses(1), Some(1));
    db.increment_image_uses(1, 4);
    assert_eq!(db.get_uses(1), Some(2));
}

#[test]
fn update_image_overwrites_embedding_only() {
    let mut db = Db::new(2, Metric::Euclidean, DEFAULT_PAGE_SIZE);
    db.create_image(6, emb(vec![0, 0]), b"f1".to_vec(), b"a".to_vec(), MediaType::Photo, 1)
        .unwrap();
    db.create_image(6, emb(vec![100, 100]), b"f2".to_vec(), b"b".to_vec(), MediaType::Photo, 2)
        .unwrap();
    let q = emb(vec![0, 0]);
    assert_eq!(ids_of(&db.search_images(6, &q, None)), vec![1, 2]);
    // re-index record 1 far away: the order flips, nothing else changes
    db.update_image(1, &emb(vec![5000, 5000]));
    assert_eq!(ids_of(&db.search_images(6, &q, None)), vec![2, 1]);
    assert_eq!(db.get_uses(1), Some(0));
    assert_eq!(db.get_all_images().len(), 2);
}

#[test]
fn update_user_creates_then_bumps() {
    let mut db = Db::new(2, Metric::Cosine, DEFAULT_PAGE_SIZE);
    assert_eq!(db.get_user_activity(11), None);
    db.update_user(11, 1000);
    assert_eq!(db.get_user_activity(11), Some(1000));
    db.update_user(11, 2000);
    assert_eq!(db.get_user_activity(11), Some(2000));
    db.update_user(12, 2500);
    assert_eq!(db.get_user_activity(11), Some(2000));
    assert_eq!(db.get_user_activity(12), Some(2500));
}

#[test]
fn get_all_images_lists_every_record() {
    let mut db = Db::new(2, Metric::Cosine, DEFAULT_PAGE_SIZE);
    db.create_image(1, emb(vec![0, 0]), b"f1".to_vec(), b"a".to_vec(), MediaType::Photo, 1)
        .unwrap();
    db.create_image(2, emb(vec![0, 0]), b"f2".to_vec(), b"b".to_vec(), MediaType::Video, 2)
        .unwrap();
    let all = db.get_all_images();
    assert_eq!(ids_of(&all), vec![1, 2]);
    assert_eq!(all[0].file_id, b"f1".to_vec());
    assert_eq!(all[1].media_type, MediaType::Video);
}

#[test]
fn embedding_rejects_out_of_range_components() {
    assert!(Embedding::new(vec![0, 1 << 20]).is_ok());
    assert_eq!(
        Embedding::new(vec![0, (1 << 20) + 1]).unwrap_err(),
        Error::Protocol
    );
    assert_eq!(
        Embedding::new(vec![-(1 << 20) - 1]).unwrap_err(),
        Error::Protocol
    );
}
