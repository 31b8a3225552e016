use chartographer::error::AppError;
use chartographer::providers::{after_attempt, RetryStep, Sent};
use chartographer::providers::{backoff_ms, chunk_ids, should_retry, MAX_BACKOFF_MS};

#[test]
fn backoff_grows_and_is_bounded() {
    assert_eq!(backoff_ms(0), 400);
    assert_eq!(backoff_ms(1), 800);
    assert_eq!(backoff_ms(2), 1600);
    assert_eq!(backoff_ms(9), MAX_BACKOFF_MS);
}

#[test]
fn only_transient_statuses_are_retried() {
    assert!(should_retry(429));
    assert!(should_retry(500));
    assert!(should_retry(503));
    assert!(!should_retry(400));
    assert!(!should_retry(401));
    assert!(!should_retry(404));
    assert!(!should_retry(200));
}

#[test]
fn chunking_respects_batch_size() {
    let ids: Vec<String> = (0..25).map(|i| i.to_string()).collect();
    let chunks = chunk_ids(&ids, 10);
    assert_eq!(chunks.len(), 3);
    assert_eq!(chunks[0].len(), 10);
    assert_eq!(chunks[2].len(), 5);
}

#[test]
fn backoff_stops_doubling_past_the_limit() {
    assert_eq!(backoff_ms(4), 6400);
    assert_eq!(backoff_ms(5), 8000);
    assert_eq!(backoff_ms(u32::MAX), 8000);
}

#[test]
fn a_zero_batch_size_counts_as_one_and_nothing_is_lost() {
    let ids: Vec<String> = (0..3).map(|i| i.to_string()).collect();
    let chunks = chunk_ids(&ids, 0);
    assert_eq!(chunks.len(), 3);
    assert_eq!(chunks.concat(), ids);
    assert!(chunk_ids(&[], 4).is_empty());
}

#[test]
fn a_transient_answer_waits_then_gives_up() {
    assert!(matches!(after_attempt("modrinth", &Sent::Answered(200), 0), RetryStep::Deliver));
    assert!(matches!(after_attempt("modrinth", &Sent::Answered(404), 3), RetryStep::Deliver));
    assert!(matches!(after_attempt("modrinth", &Sent::Answered(429), 0), RetryStep::Wait(400)));
    assert!(matches!(after_attempt("modrinth", &Sent::Answered(503), 2), RetryStep::Wait(1600)));
    match after_attempt("modrinth", &Sent::Answered(503), 3) {
        RetryStep::Refuse(AppError::Remote { provider, detail }) => {
            assert_eq!(provider, "modrinth");
            assert_eq!(detail, "HTTP 503 après 3 reprises");
        }
        other => panic!("{other:?}"),
    }
    match after_attempt("curseforge", &Sent::Answered(401), 0) {
        RetryStep::Refuse(AppError::Auth { detail, .. }) => assert_eq!(detail, "HTTP 401"),
        other => panic!("{other:?}"),
    }
    assert!(matches!(
        after_attempt("x", &Sent::Failed("timeout".into()), 1),
        RetryStep::Wait(800)
    ));
    match after_attempt("x", &Sent::Failed("timeout".into()), 3) {
        RetryStep::Refuse(AppError::Remote { detail, .. }) => assert_eq!(detail, "timeout"),
        other => panic!("{other:?}"),
    }
}
