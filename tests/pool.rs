use std::sync::Arc;
use std::sync::Mutex;

use hello_webserver::dispatch::{Dispatch, WorkerState};
use hello_webserver::message::Message;
use hello_webserver::shutdown::{ShutdownPlan, ShutdownStep};

type Job = Box<dyn FnOnce() + Send + 'static>;

/// Lets worker `w` take and run whatever is at the front; returns true when
/// it was told to leave.
fn serve_one(d: &mut Dispatch<Job>, w: usize) -> bool {
    match d.take(w) {
        Some(Message::NewJob(job)) => {
            job();
            d.finish(w);
            false
        }
        Some(Message::Terminate) => true,
        None => false,
    }
}

fn shut_down(d: &mut Dispatch<Job>) {
    let mut plan = ShutdownPlan::new(d.size());
    loop {
        match plan.next_step() {
            ShutdownStep::SendTerminate => {
                assert!(d.send_terminate());
            }
            ShutdownStep::Join(w) => {
                while d.state_of(w) != WorkerState::Terminated {
                    serve_one(d, w);
                }
            }
            ShutdownStep::Finished => break,
        }
    }
}

#[test]
fn two_jobs_on_four_workers_each_log_their_id() {
    let log: Arc<Mutex<Vec<u32>>> = Arc::new(Mutex::new(Vec::new()));
    let mut d: Dispatch<Job> = Dispatch::new(4);
    for id in 0..2u32 {
        let log = Arc::clone(&log);
        assert!(d.submit(Box::new(move || log.lock().unwrap().push(id))).is_ok());
    }
    assert!(!serve_one(&mut d, 2));
    assert!(!serve_one(&mut d, 0));
    shut_down(&mut d);
    let mut got = log.lock().unwrap().clone();
    assert_eq!(got.len(), 2);
    got.sort();
    assert_eq!(got, vec![0, 1]);
}

#[test]
fn every_job_runs_exactly_once() {
    for n in 1..5usize {
        let count = Arc::new(Mutex::new(vec![0u32; 7]));
        let mut d: Dispatch<Job> = Dispatch::new(n);
        for id in 0..7usize {
            let count = Arc::clone(&count);
            assert!(d.submit(Box::new(move || count.lock().unwrap()[id] += 1)).is_ok());
            serve_one(&mut d, id % n);
        }
        shut_down(&mut d);
        assert_eq!(*count.lock().unwrap(), vec![1u32; 7]);
        assert_eq!(d.pending_len(), 0);
    }
}

#[test]
fn queue_hands_out_in_submission_order() {
    let mut d: Dispatch<u32> = Dispatch::new(3);
    for id in 10..13u32 {
        assert!(d.submit(id).is_ok());
    }
    assert!(matches!(d.take(2), Some(Message::NewJob(10))));
    assert!(matches!(d.take(0), Some(Message::NewJob(11))));
    assert!(matches!(d.take(1), Some(Message::NewJob(12))));
    assert!(d.take(1).is_none());
}

#[test]
fn busy_worker_takes_nothing_until_it_finishes() {
    let mut d: Dispatch<u32> = Dispatch::new(1);
    assert!(d.submit(1).is_ok());
    assert!(d.submit(2).is_ok());
    assert!(matches!(d.take(0), Some(Message::NewJob(1))));
    assert_eq!(d.state_of(0), WorkerState::Executing);
    assert!(d.take(0).is_none());
    assert_eq!(d.pending_len(), 1);
    d.finish(0);
    assert_eq!(d.state_of(0), WorkerState::Idle);
    assert!(matches!(d.take(0), Some(Message::NewJob(2))));
}

#[test]
fn finish_on_idle_worker_changes_nothing() {
    let mut d: Dispatch<u32> = Dispatch::new(2);
    d.finish(1);
    assert_eq!(d.state_of(1), WorkerState::Idle);
    assert_eq!(d.pending_len(), 0);
}

#[test]
fn empty_queue_gives_nothing() {
    let mut d: Dispatch<u32> = Dispatch::new(2);
    assert!(d.take(0).is_none());
    assert_eq!(d.state_of(0), WorkerState::Idle);
}

#[test]
fn submit_after_shutdown_hands_the_job_back() {
    let mut d: Dispatch<u32> = Dispatch::new(2);
    assert!(!d.is_closed());
    assert!(d.send_terminate());
    assert!(d.is_closed());
    assert_eq!(d.submit(9), Err(9));
    assert_eq!(d.pending_len(), 1);
}

#[test]
fn no_more_signals_than_workers() {
    let mut d: Dispatch<u32> = Dispatch::new(2);
    assert!(d.send_terminate());
    assert!(d.send_terminate());
    assert!(!d.send_terminate());
    assert_eq!(d.pending_len(), 2);
}

#[test]
fn each_worker_gets_exactly_one_terminate() {
    let mut d: Dispatch<u32> = Dispatch::new(3);
    assert!(d.submit(1).is_ok());
    // worker 0 is busy with a long job when shutdown begins
    assert!(matches!(d.take(0), Some(Message::NewJob(1))));
    for _ in 0..3 {
        assert!(d.send_terminate());
    }
    assert!(matches!(d.take(1), Some(Message::Terminate)));
    assert!(matches!(d.take(2), Some(Message::Terminate)));
    assert!(d.take(1).is_none());
    assert_eq!(d.state_of(1), WorkerState::Terminated);
    // the busy worker still finds its own signal waiting
    assert_eq!(d.pending_len(), 1);
    d.finish(0);
    assert!(matches!(d.take(0), Some(Message::Terminate)));
    assert_eq!(d.pending_len(), 0);
    for w in 0..3 {
        assert_eq!(d.state_of(w), WorkerState::Terminated);
    }
}

#[test]
fn jobs_before_shutdown_run_before_it_ends() {
    let ran = Arc::new(Mutex::new(0u32));
    let mut d: Dispatch<Job> = Dispatch::new(2);
    for _ in 0..5 {
        let ran = Arc::clone(&ran);
        assert!(d.submit(Box::new(move || *ran.lock().unwrap() += 1)).is_ok());
    }
    shut_down(&mut d);
    assert_eq!(*ran.lock().unwrap(), 5);
}

#[test]
fn shutdown_plan_sends_all_signals_then_joins() {
    let mut plan = ShutdownPlan::new(3);
    let mut steps = Vec::new();
    loop {
        let s = plan.next_step();
        steps.push(s);
        if s == ShutdownStep::Finished {
            break;
        }
    }
    assert_eq!(
        steps,
        vec![
            ShutdownStep::SendTerminate,
            ShutdownStep::SendTerminate,
            ShutdownStep::SendTerminate,
            ShutdownStep::Join(0),
            ShutdownStep::Join(1),
            ShutdownStep::Join(2),
            ShutdownStep::Finished,
        ]
    );
    assert_eq!(plan.next_step(), ShutdownStep::Finished);
}

#[test]
fn message_knows_its_kind() {
    assert!(Message::<u32>::Terminate.is_terminate());
    assert!(!Message::NewJob(3u32).is_terminate());
}
