use mathtutor::envelope::{lesson_history_from, quiz_history_from};
use mathtutor::Error;

#[test]
fn lesson_history_reads_the_stored_time_as_an_instant() {
    let h = lesson_history_from(2, Some("2026-05-26T10:30:00.250+00:00".into())).unwrap();
    assert_eq!(h.repetitions, 2);
    assert_eq!(h.last_presented_at, Some((1_779_791_400, 250_000_000)));
    // Any RFC 3339 offset names the same instant.
    let h = lesson_history_from(1, Some("2026-05-26T12:30:00.250+02:00".into())).unwrap();
    assert_eq!(h.last_presented_at, Some((1_779_791_400, 250_000_000)));
    assert_eq!(lesson_history_from(0, None).unwrap().last_presented_at, None);
}

#[test]
fn a_stored_time_that_is_not_rfc3339_is_an_error() {
    match lesson_history_from(1, Some("yesterday".into())) {
        Err(Error::BadTimestamp(m)) => assert!(m.starts_with("yesterday: ")),
        other => panic!("expected BadTimestamp, got {other:?}"),
    }
    // The count is checked before the time.
    assert!(matches!(lesson_history_from(-1, Some("yesterday".into())), Err(Error::CardsCorrupt(_))));
    match quiz_history_from("p", "q", 1, Some("2026-13-01T00:00:00Z".into()), Some((1, 2)), &vec![9]) {
        Err(Error::BadTimestamp(m)) => assert!(m.starts_with("2026-13-01T00:00:00Z: ")),
        other => panic!("expected BadTimestamp, got {other:?}"),
    }
}

#[test]
fn quiz_history_reads_the_stored_time_then_the_card() {
    let h = quiz_history_from("p", "q", 3, Some("2026-05-26T10:30:00Z".into()), Some((4, 1)), &vec![3, 1]).unwrap();
    assert_eq!(h.repetitions, 3);
    assert_eq!(h.last_presented_at, Some((1_779_791_400, 0)));
    assert_eq!((h.correct_count, h.total_count, h.correct_pct), (3, 4, Some(75)));
    assert_eq!(h.recent_ratings.len(), 2);
}
