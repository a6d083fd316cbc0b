use rustful::server::instance::{must_close, route_start, route_step, thread_count, threads_for, unhandled_status, RouteNext, RouteOutcome};

#[test]
fn configured_threads_are_kept() {
    assert_eq!(threads_for(Some(3), 8), 3);
    assert_eq!(thread_count(Some(7)), 7);
}

#[test]
fn default_threads_are_five_for_every_four_cpus() {
    assert_eq!(threads_for(None, 4), 5);
    assert_eq!(threads_for(None, 8), 10);
    assert_eq!(threads_for(None, 1), 1);
    assert!(thread_count(None) >= 1);
}

#[test]
fn keep_alive_closes_when_too_few_threads_are_free() {
    assert!(!must_close(None, 100, 4));
    assert!(!must_close(Some(1), 2, 4));
    assert!(!must_close(Some(2), 2, 4));
    assert!(must_close(Some(3), 2, 4));
    assert!(must_close(Some(0), 5, 4));
    assert!(must_close(Some(usize::MAX), 1, 4));
}

#[test]
fn unhandled_ok_becomes_not_found() {
    assert_eq!(unhandled_status(200), 404);
    assert_eq!(unhandled_status(405), 405);
    assert_eq!(unhandled_status(500), 500);
}

#[test]
fn no_matching_route_is_not_found() {
    assert_eq!(route_start(0), (Some(404), RouteNext::Done(false)));
    assert_eq!(route_start(2), (None, RouteNext::Try(0)));
}

#[test]
fn routes_are_tried_until_one_takes_the_request() {
    assert_eq!(route_step(3, 0, RouteOutcome::Declined), (None, RouteNext::Try(1)));
    assert_eq!(route_step(3, 1, RouteOutcome::NoHandler), (Some(405), RouteNext::Try(2)));
    assert_eq!(route_step(3, 2, RouteOutcome::NoHandler), (Some(405), RouteNext::Done(false)));
    assert_eq!(route_step(3, 1, RouteOutcome::Handled), (None, RouteNext::Done(true)));
    assert_eq!(route_step(1, 0, RouteOutcome::Declined), (None, RouteNext::Done(false)));
}
