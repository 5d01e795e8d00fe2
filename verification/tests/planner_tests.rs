use picsav::embedding::{Embedding, Metric};
use picsav::query::{answer_query, parse_u64, record_selection, QueryOutcome};
use picsav::store::{Db, MediaType};

fn emb(comps: Vec<i64>) -> Embedding {
    Embedding::new(comps).unwrap()
}

fn three_record_db() -> Db {
    let mut db = Db::new(2, Metric::Euclidean, 2);
    db.create_image(8, emb(vec![10, 0]), b"f1".to_vec(), b"a".to_vec(), MediaType::Photo, 1)
        .unwrap();
    db.create_image(8, emb(vec![20, 0]), b"f2".to_vec(), b"b".to_vec(), MediaType::Photo, 2)
        .unwrap();
    db.create_image(8, emb(vec![30, 0]), b"f3".to_vec(), b"c".to_vec(), MediaType::Photo, 3)
        .unwrap();
    db
}

#[test]
fn parse_u64_accepts_digits_only() {
    assert_eq!(parse_u64(&b"0".to_vec()), Some(0));
    assert_eq!(parse_u64(&b"123".to_vec()), Some(123));
    assert_eq!(parse_u64(&b"000123".to_vec()), Some(123));
    assert_eq!(parse_u64(&b"".to_vec()), None);
    assert_eq!(parse_u64(&b"12a".to_vec()), None);
    assert_eq!(parse_u64(&b"-5".to_vec()), None);
    assert_eq!(parse_u64(&b"18446744073709551615".to_vec()), Some(u64::MAX));
    assert_eq!(parse_u64(&b"18446744073709551616".to_vec()), None);
}

#[test]
fn semantic_pages_of_two_over_three_records() {
    let db = three_record_db();
    let q = emb(vec![0, 0]);
    // page one: two records, and a cursor at offset 2
    match answer_query(&db, 8, Some(&q), None) {
        QueryOutcome::Page { items, next_offset } => {
            let ids: Vec<u64> = items.iter().map(|r| r.id).collect();
            assert_eq!(ids, vec![1, 2]);
            assert_eq!(next_offset, Some(2));
        }
        QueryOutcome::NoMatches => panic!("expected a page"),
    }
    // page two: the last record, and no cursor
    match answer_query(&db, 8, Some(&q), Some(2)) {
        QueryOutcome::Page { items, next_offset } => {
            let ids: Vec<u64> = items.iter().map(|r| r.id).collect();
            assert_eq!(ids, vec![3]);
            assert_eq!(next_offset, None);
        }
        QueryOutcome::NoMatches => panic!("expected a page"),
    }
}

#[test]
fn pagination_walk_covers_all_without_duplicates() {
    let mut db = Db::new(2, Metric::Euclidean, 2);
    for i in 0..7i64 {
        let fp = vec![b'k', i as u8];
        db.create_image(
            1,
            emb(vec![i * 10, 0]),
            fp.clone(),
            fp,
            MediaType::Photo,
            i as u64,
        )
        .unwrap();
    }
    let q = emb(vec![0, 0]);
    let mut seen: Vec<u64> = Vec::new();
    let mut offset: Option<u64> = None;
    loop {
        match answer_query(&db, 1, Some(&q), offset) {
            QueryOutcome::Page { items, next_offset } => {
                for r in &items {
                    assert!(!seen.contains(&r.id), "duplicate across pages");
                    seen.push(r.id);
                }
                match next_offset {
                    Some(o) => offset = Some(o),
                    None => break,
                }
            }
            QueryOutcome::NoMatches => panic!("walk hit an empty page"),
        }
    }
    assert_eq!(seen, vec![1, 2, 3, 4, 5, 6, 7]);
}

#[test]
fn empty_query_uses_popularity_ranking() {
    let mut db = three_record_db();
    db.increment_image_uses(2, 8);
    match answer_query(&db, 8, None, None) {
        QueryOutcome::Page { items, next_offset } => {
            let ids: Vec<u64> = items.iter().map(|r| r.id).collect();
            // record 2 was selected once; the rest tie and order by recency
            assert_eq!(ids, vec![2, 3]);
            assert_eq!(next_offset, Some(2));
        }
        QueryOutcome::NoMatches => panic!("expected a page"),
    }
}

#[test]
fn no_matches_is_distinct_from_end_of_pagination() {
    let db = three_record_db();
    let q = emb(vec![0, 0]);
    // an owner with nothing stored gets the explicit empty signal
    assert!(matches!(
        answer_query(&db, 999, Some(&q), None),
        QueryOutcome::NoMatches
    ));
    // an offset past the end of a real result set, too
    assert!(matches!(
        answer_query(&db, 8, Some(&q), Some(50)),
        QueryOutcome::NoMatches
    ));
}

#[test]
fn record_selection_parses_and_counts() {
    let mut db = three_record_db();
    assert_eq!(db.get_uses(2), Some(0));
    record_selection(&mut db, &b"2".to_vec(), 8);
    assert_eq!(db.get_uses(2), Some(1));
    // an unparsable result id is ignored
    record_selection(&mut db, &b"junk".to_vec(), 8);
    assert_eq!(db.get_uses(2), Some(1));
    // a selection by someone who does not own the record is ignored
    record_selection(&mut db, &b"2".to_vec(), 12345);
    assert_eq!(db.get_uses(2), Some(1));
}
