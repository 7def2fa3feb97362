use scrape_rs::structs::{check_thread_count, indexed_jobs, FetchError, JobStatus, Next, Queue, ScrapeJob};

fn job_url(next: Next) -> Option<String> {
    match next {
        Next::Job(job) => Some(job.url().to_string()),
        _ => None,
    }
}

#[test]
fn new_job_is_pending_without_index() {
    let job = ScrapeJob::new("https://example.com/a".to_string());
    assert_eq!(job.url(), "https://example.com/a");
    assert_eq!(*job.status(), JobStatus::Pending);
    assert_eq!(job.index(), None);
}

#[test]
fn indexed_job_keeps_its_position() {
    let job = ScrapeJob::new_indexed("https://example.com/b".to_string(), 7);
    assert_eq!(job.url(), "https://example.com/b");
    assert_eq!(*job.status(), JobStatus::Pending);
    assert_eq!(job.index(), Some(7));
}

#[test]
fn set_status_changes_only_the_status() {
    let mut job = ScrapeJob::new_indexed("u".to_string(), 3);
    job.set_status(JobStatus::Running);
    assert_eq!(*job.status(), JobStatus::Running);
    job.set_status(JobStatus::Finished);
    assert_eq!(*job.status(), JobStatus::Finished);
    assert_eq!(job.url(), "u");
    assert_eq!(job.index(), Some(3));
}

#[test]
fn empty_queue_says_empty_and_stays_empty() {
    let mut queue = Queue::new();
    assert!(matches!(queue.next(), Next::Empty));
    assert!(matches!(queue.next(), Next::Empty));
    let mut queue = Queue::default();
    assert!(matches!(queue.next(), Next::Empty));
}

#[test]
fn queue_hands_out_jobs_in_push_order() {
    let mut queue = Queue::new();
    queue.push(ScrapeJob::new("first".to_string()));
    queue.push(ScrapeJob::new("second".to_string()));
    assert_eq!(job_url(queue.next()), Some("first".to_string()));
    queue.push(ScrapeJob::new("third".to_string()));
    assert_eq!(job_url(queue.next()), Some("second".to_string()));
    assert_eq!(job_url(queue.next()), Some("third".to_string()));
    assert!(matches!(queue.next(), Next::Empty));
}

#[test]
fn shutdown_comes_after_queued_jobs_once_per_worker() {
    let mut queue = Queue::new();
    queue.push(ScrapeJob::new("a".to_string()));
    queue.push(ScrapeJob::new("b".to_string()));
    queue.shutdown(3);
    assert_eq!(job_url(queue.next()), Some("a".to_string()));
    assert_eq!(job_url(queue.next()), Some("b".to_string()));
    assert!(matches!(queue.next(), Next::Shutdown));
    assert!(matches!(queue.next(), Next::Shutdown));
    assert!(matches!(queue.next(), Next::Shutdown));
    assert!(matches!(queue.next(), Next::Empty));
}

#[test]
fn shutdown_of_zero_workers_adds_nothing() {
    let mut queue = Queue::new();
    queue.shutdown(0);
    assert!(matches!(queue.next(), Next::Empty));
}

#[test]
fn jobs_pushed_after_shutdown_come_after_the_stop_signals() {
    let mut queue = Queue::new();
    queue.shutdown(1);
    queue.push(ScrapeJob::new("late".to_string()));
    assert!(matches!(queue.next(), Next::Shutdown));
    assert_eq!(job_url(queue.next()), Some("late".to_string()));
}

#[test]
fn indexed_jobs_number_the_urls_in_order() {
    let urls = vec!["x".to_string(), "y".to_string(), "z".to_string()];
    let jobs = indexed_jobs(urls);
    assert_eq!(jobs.len(), 3);
    for (i, (job, url)) in jobs.iter().zip(["x", "y", "z"]).enumerate() {
        assert_eq!(job.url(), url);
        assert_eq!(job.index(), Some(i));
        assert_eq!(*job.status(), JobStatus::Pending);
    }
    assert!(indexed_jobs(Vec::new()).is_empty());
}

#[test]
fn thread_count_within_parallelism_is_accepted() {
    assert!(check_thread_count(4, Ok(4)).is_ok());
    assert!(check_thread_count(1, Ok(8)).is_ok());
}

#[test]
fn too_many_threads_are_refused_with_both_numbers() {
    match check_thread_count(5, Ok(4)) {
        Err(FetchError::TooManyThreads { requested, available }) => {
            assert_eq!(requested, 5);
            assert_eq!(available, 4);
        }
        _ => panic!("expected TooManyThreads"),
    }
}

#[test]
fn unknown_parallelism_is_reported() {
    let err = std::io::Error::new(std::io::ErrorKind::Unsupported, "no cpu count");
    match check_thread_count(2, Err(err)) {
        Err(FetchError::ParallelismUnavailable(e)) => {
            assert_eq!(e.kind(), std::io::ErrorKind::Unsupported);
            assert_eq!(e.to_string(), "no cpu count");
        }
        _ => panic!("expected ParallelismUnavailable"),
    }
}

#[test]
fn interleaved_operations_hand_out_every_entry_once_in_order() {
    let mut queue = Queue::new();
    let mut handed = Vec::new();
    queue.push(ScrapeJob::new("1".to_string()));
    if let Some(url) = job_url(queue.next()) {
        handed.push(url);
    }
    queue.push(ScrapeJob::new("2".to_string()));
    queue.shutdown(1);
    queue.push(ScrapeJob::new("3".to_string()));
    assert_eq!(job_url(queue.next()), Some("2".to_string()));
    assert!(matches!(queue.next(), Next::Shutdown));
    assert_eq!(job_url(queue.next()), Some("3".to_string()));
    assert!(matches!(queue.next(), Next::Empty));
    assert_eq!(handed, vec!["1".to_string()]);
}

#[test]
fn a_worker_takes_jobs_marked_running_and_finishes_them() {
    let mut queue = Queue::new();
    queue.push(ScrapeJob::new_indexed("page".to_string(), 4));
    queue.shutdown(1);
    match queue.next_for_worker() {
        Next::Job(mut job) => {
            assert_eq!(*job.status(), JobStatus::Running);
            assert_eq!(job.url(), "page");
            assert_eq!(job.index(), Some(4));
            job.finish();
            assert_eq!(*job.status(), JobStatus::Finished);
            assert_eq!(job.index(), Some(4));
        }
        _ => panic!("expected a job"),
    }
    assert!(matches!(queue.next_for_worker(), Next::Shutdown));
    assert!(matches!(queue.next_for_worker(), Next::Empty));
}
