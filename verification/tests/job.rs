use rust_rim::job::{Job, Received};

#[test]
fn poll_on_idle_is_noop() {
    let mut job: Job<i32> = Job::Idle;
    assert!(!job.poll());
    assert!(job.is_idle());
}

#[test]
fn a_value_settles_the_job_and_can_be_taken_once() {
    let (_tx, rx) = std::sync::mpsc::channel::<Result<i32, String>>();
    let mut job: Job<i32> = Job::Running(rx);
    assert!(job.is_running());
    assert!(job.settle_with(Received::Value(Ok(7))));
    assert_eq!(job.result(), Some(&7));
    assert_eq!(job.take_result(), Some(7));
    assert!(job.is_idle());
    assert_eq!(job.take_result(), None);
}

#[test]
fn an_error_or_a_dead_sender_fails_the_job() {
    let (_tx, rx) = std::sync::mpsc::channel::<Result<i32, String>>();
    let mut job: Job<i32> = Job::Running(rx);
    assert!(job.settle_with(Received::Value(Err("нет".to_string()))));
    assert_eq!(job.error(), Some("нет"));

    let (_tx2, rx2) = std::sync::mpsc::channel::<Result<i32, String>>();
    let mut job: Job<i32> = Job::Running(rx2);
    assert!(!job.settle_with(Received::Empty));
    assert!(job.is_running());
    assert!(job.settle_with(Received::Disconnected));
    assert_eq!(job.error(), Some("фоновая задача прервалась"));
}

#[test]
fn polling_a_finished_channel_picks_the_result_up() {
    let (tx, rx) = std::sync::mpsc::channel::<Result<i32, String>>();
    tx.send(Ok(5)).unwrap();
    let mut job: Job<i32> = Job::Running(rx);
    assert!(job.poll());
    assert_eq!(job.result(), Some(&5));
}
