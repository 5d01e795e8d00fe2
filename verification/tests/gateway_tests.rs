use picsav::gateway::{check_embeddings_response, FlightGuard};
use picsav::translate::{check_translation_response, Translator};
use picsav::Error;

#[test]
fn single_flight_admits_at_most_one() {
    let mut g = FlightGuard::new(1);
    let mut max_in_flight = 0;
    let t0 = g.enqueue();
    let t1 = g.enqueue();
    assert_eq!((t0, t1), (0, 1));

    // not its turn yet
    assert!(!g.try_begin(t1));
    assert!(g.try_begin(t0));
    max_in_flight = max_in_flight.max(g.in_flight());
    // the slot is taken: the next arrival must wait
    assert!(!g.try_begin(t1));
    max_in_flight = max_in_flight.max(g.in_flight());
    g.finish();
    assert!(g.try_begin(t1));
    max_in_flight = max_in_flight.max(g.in_flight());
    g.finish();
    assert_eq!(g.in_flight(), 0);
    assert_eq!(max_in_flight, 1);
}

#[test]
fn guard_serves_in_arrival_order() {
    let mut g = FlightGuard::new(2);
    let t0 = g.enqueue();
    let t1 = g.enqueue();
    let t2 = g.enqueue();
    assert!(!g.try_begin(t2));
    assert!(!g.try_begin(t1));
    assert!(g.try_begin(t0));
    assert!(g.try_begin(t1));
    // capacity two is full even though it is t2's turn
    assert!(!g.try_begin(t2));
    g.finish();
    assert!(g.try_begin(t2));
}

#[test]
fn provider_error_on_bad_status() {
    let r = check_embeddings_response(2, 1, 500, Some(vec![vec![1, 2]]));
    assert_eq!(r.unwrap_err(), Error::Provider);
}

#[test]
fn protocol_error_on_undecodable_body() {
    let r = check_embeddings_response(2, 1, 200, None);
    assert_eq!(r.unwrap_err(), Error::Protocol);
}

#[test]
fn empty_result_on_zero_vectors() {
    let r = check_embeddings_response(2, 1, 200, Some(vec![]));
    assert_eq!(r.unwrap_err(), Error::EmptyResult);
}

#[test]
fn protocol_error_on_wrong_arity() {
    let r = check_embeddings_response(2, 2, 200, Some(vec![vec![1, 2]]));
    assert_eq!(r.unwrap_err(), Error::Protocol);
}

#[test]
fn protocol_error_on_wrong_dimension() {
    let r = check_embeddings_response(2, 1, 200, Some(vec![vec![1, 2, 3]]));
    assert_eq!(r.unwrap_err(), Error::Protocol);
}

#[test]
fn protocol_error_on_out_of_range_component() {
    let r = check_embeddings_response(2, 1, 200, Some(vec![vec![1, 1 << 21]]));
    assert_eq!(r.unwrap_err(), Error::Protocol);
}

#[test]
fn good_response_hands_back_the_first_vector() {
    let r = check_embeddings_response(2, 2, 200, Some(vec![vec![7, 8], vec![9, 10]])).unwrap();
    assert_eq!(r.len(), 2);
    let e = r.get_one().unwrap();
    assert_eq!(e.dim(), 2);
    assert_eq!((e.comp(0), e.comp(1)), (7, 8));
}

#[test]
fn get_one_reports_an_empty_batch() {
    let r = check_embeddings_response(2, 0, 200, Some(vec![])).unwrap();
    assert_eq!(r.get_one().unwrap_err(), Error::EmptyResult);
}

#[test]
fn translation_cache_returns_exactly_what_was_stored() {
    let mut t = Translator::new();
    assert_eq!(t.lookup(&b"privet".to_vec()), None);
    t.store_translation(b"privet".to_vec(), b"hello".to_vec());
    assert_eq!(t.lookup(&b"privet".to_vec()), Some(b"hello".to_vec()));
    // a different source text never reuses another entry
    assert_eq!(t.lookup(&b"poka".to_vec()), None);
    t.store_translation(b"poka".to_vec(), b"bye".to_vec());
    assert_eq!(t.lookup(&b"privet".to_vec()), Some(b"hello".to_vec()));
    assert_eq!(t.lookup(&b"poka".to_vec()), Some(b"bye".to_vec()));
    // storing again for the same text replaces its entry alone
    t.store_translation(b"privet".to_vec(), b"hi".to_vec());
    assert_eq!(t.lookup(&b"privet".to_vec()), Some(b"hi".to_vec()));
    assert_eq!(t.lookup(&b"poka".to_vec()), Some(b"bye".to_vec()));
}

#[test]
fn translation_response_checks() {
    assert_eq!(
        check_translation_response(1, 403, Some(vec![b"x".to_vec()])).unwrap_err(),
        Error::Provider
    );
    assert_eq!(
        check_translation_response(1, 200, None).unwrap_err(),
        Error::Protocol
    );
    assert_eq!(
        check_translation_response(2, 200, Some(vec![b"x".to_vec()])).unwrap_err(),
        Error::Protocol
    );
    let ok = check_translation_response(1, 200, Some(vec![b"hello".to_vec()])).unwrap();
    assert_eq!(ok, vec![b"hello".to_vec()]);
}
