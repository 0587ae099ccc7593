use blog_os::executor::{Executor, SimpleExecutor, StepOutcome, TaskState};
use blog_os::keyboard::{add_scancode, poll_scancode, QueueFull, ScancodeQueue, SCANCODE_QUEUE_SIZE};

#[test]
fn spawned_tasks_run_in_order_and_complete() {
    let mut ex = Executor::new();
    let a = ex.spawn();
    let b = ex.spawn();
    assert_eq!((a, b), (0, 1));
    assert_eq!(ex.next_task(), Some(a));
    assert_eq!(ex.tasks[a], TaskState::Running { woken: false });
    ex.finish_step(a, StepOutcome::Done);
    assert_eq!(ex.next_task(), Some(b));
    ex.finish_step(b, StepOutcome::Done);
    assert_eq!(ex.next_task(), None);
    assert!(!ex.has_tasks());
    assert!(!ex.should_sleep());
}

#[test]
fn a_suspended_task_waits_for_its_wakeup() {
    let mut ex = Executor::new();
    let t = ex.spawn();
    assert_eq!(ex.next_task(), Some(t));
    ex.finish_step(t, StepOutcome::Pending);
    assert_eq!(ex.tasks[t], TaskState::Suspended);
    assert_eq!(ex.next_task(), None);
    assert!(ex.should_sleep());
    ex.wake(t);
    assert_eq!(ex.tasks[t], TaskState::Queued);
    assert_eq!(ex.next_task(), Some(t));
    assert_eq!(ex.next_task(), None);
}

#[test]
fn two_wakeups_before_a_step_resume_once() {
    let mut ex = Executor::new();
    let t = ex.spawn();
    ex.next_task();
    ex.finish_step(t, StepOutcome::Pending);
    ex.wake(t);
    ex.wake(t);
    assert_eq!(ex.run_queue, vec![t]);
    assert_eq!(ex.next_task(), Some(t));
    assert_eq!(ex.next_task(), None);
}

#[test]
fn a_wakeup_during_a_step_is_not_lost() {
    let mut ex = Executor::new();
    let t = ex.spawn();
    ex.next_task();
    ex.wake(t);
    assert_eq!(ex.tasks[t], TaskState::Running { woken: true });
    ex.finish_step(t, StepOutcome::Pending);
    assert_eq!(ex.tasks[t], TaskState::Queued);
    assert_eq!(ex.next_task(), Some(t));
}

#[test]
fn waking_a_completed_or_unknown_task_does_nothing() {
    let mut ex = Executor::new();
    let t = ex.spawn();
    ex.next_task();
    ex.finish_step(t, StepOutcome::Done);
    ex.wake(t);
    ex.wake(7);
    assert_eq!(ex.tasks, vec![TaskState::Completed]);
    assert!(ex.run_queue.is_empty());
}

#[test]
fn queue_pops_in_push_order() {
    let mut q = ScancodeQueue::new(4);
    assert_eq!(q.pop(), None);
    q.push(1).unwrap();
    q.push(2).unwrap();
    assert_eq!(q.pop(), Some(1));
    q.push(3).unwrap();
    q.push(4).unwrap();
    q.push(5).unwrap();
    assert_eq!(q.push(6), Err(QueueFull));
    assert_eq!(q.pop(), Some(2));
    assert_eq!(q.pop(), Some(3));
    q.push(7).unwrap();
    assert_eq!(q.pop(), Some(4));
    assert_eq!(q.pop(), Some(5));
    assert_eq!(q.pop(), Some(7));
    assert_eq!(q.pop(), None);
}

#[test]
fn entries_pushed_before_the_consumer_are_seen_in_order() {
    let mut ex = Executor::new();
    let mut q = ScancodeQueue::new(SCANCODE_QUEUE_SIZE);
    for code in [0x1e, 0x30, 0x2e] {
        assert_eq!(add_scancode(&mut q, &mut ex, code), Ok(()));
    }
    let consumer = ex.spawn();
    assert_eq!(ex.next_task(), Some(consumer));
    let mut seen = Vec::new();
    while let Some(code) = poll_scancode(&mut q, consumer) {
        seen.push(code);
    }
    assert_eq!(seen, vec![0x1e, 0x30, 0x2e]);
    assert_eq!(q.waker, Some(consumer));
    ex.finish_step(consumer, StepOutcome::Pending);
    assert_eq!(ex.tasks[consumer], TaskState::Suspended);

    // the next scancode wakes the consumer, once
    assert_eq!(add_scancode(&mut q, &mut ex, 0x20), Ok(()));
    assert_eq!(q.waker, None);
    assert_eq!(ex.run_queue, vec![consumer]);
    assert_eq!(ex.next_task(), Some(consumer));
    assert_eq!(poll_scancode(&mut q, consumer), Some(0x20));
}

#[test]
fn a_push_onto_a_full_queue_is_dropped() {
    let mut ex = Executor::new();
    let mut q = ScancodeQueue::new(SCANCODE_QUEUE_SIZE);
    for i in 0..SCANCODE_QUEUE_SIZE {
        assert_eq!(add_scancode(&mut q, &mut ex, i as u8), Ok(()));
    }
    assert_eq!(add_scancode(&mut q, &mut ex, 0xff), Err(QueueFull));
    for i in 0..SCANCODE_QUEUE_SIZE {
        assert_eq!(q.pop(), Some(i as u8));
    }
    assert_eq!(q.pop(), None);
}

#[test]
fn a_full_queue_wakes_nobody() {
    let mut ex = Executor::new();
    let mut q = ScancodeQueue::new(1);
    let t = ex.spawn();
    ex.next_task();
    assert_eq!(poll_scancode(&mut q, t), None);
    ex.finish_step(t, StepOutcome::Pending);
    q.push(9).unwrap();
    assert_eq!(add_scancode(&mut q, &mut ex, 10), Err(QueueFull));
    assert_eq!(ex.tasks[t], TaskState::Suspended);
    assert_eq!(q.waker, Some(t));
}

#[test]
fn round_robin_steps_pending_tasks_in_turn() {
    let mut ex = SimpleExecutor::new();
    let a = ex.spawn();
    let b = ex.spawn();
    assert_eq!(ex.next_task(), Some(a));
    ex.finish_step(a, StepOutcome::Pending);
    assert_eq!(ex.next_task(), Some(b));
    ex.finish_step(b, StepOutcome::Done);
    assert_eq!(ex.next_task(), Some(a));
    ex.finish_step(a, StepOutcome::Done);
    assert_eq!(ex.next_task(), None);
}
