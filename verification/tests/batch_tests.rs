use optimaimg::batch::{
    plan_batch, plan_task, task_with_stem, BatchAction, BatchFailure, BatchOutcome, BatchState,
    Slot,
};
use optimaimg::error::ErrorKind;
use optimaimg::naming::{output_file_name, push_decimal};

fn ok(index: usize) -> Option<BatchOutcome> {
    Some(BatchOutcome { index, failure: None })
}

fn failed(index: usize, kind: ErrorKind) -> Option<BatchOutcome> {
    Some(BatchOutcome { index, failure: Some(kind) })
}

#[test]
fn decimal_of_numbers() {
    for (n, text) in [(0usize, "0"), (7, "7"), (10, "10"), (99, "99"), (100, "100"), (12345, "12345")] {
        let mut s = String::new();
        push_decimal(&mut s, n);
        assert_eq!(s, text);
    }
    let mut s = String::from("x");
    push_decimal(&mut s, usize::MAX);
    assert_eq!(s, format!("x{}", usize::MAX));
}

#[test]
fn output_name_is_stem_index_and_extension() {
    assert_eq!(output_file_name("photo", 0), "photo_0.png");
    assert_eq!(output_file_name("photo", 12), "photo_12.png");
    assert_eq!(output_file_name("", 3), "_3.png");
    assert_eq!(output_file_name("caf\u{e9}", 1), "caf\u{e9}_1.png");
}

#[test]
fn output_names_differ_for_equal_stems() {
    assert_ne!(output_file_name("a", 0), output_file_name("a", 1));
    assert_ne!(output_file_name("a", 1), output_file_name("a", 10));
}

#[test]
fn output_names_differ_for_stems_that_end_in_digits() {
    assert_ne!(output_file_name("a_1", 2), output_file_name("a", 12));
    assert_ne!(output_file_name("a_", 1), output_file_name("a", 1));
    assert_ne!(output_file_name("a_1", 1), output_file_name("a", 11));
    assert_ne!(output_file_name("x1", 0), output_file_name("x", 10));
}

#[test]
fn task_takes_its_name_from_the_path() {
    let task = plan_task(3, String::from("dir/photo.jpg")).expect("has a stem");
    assert_eq!(task.index, 3);
    assert_eq!(task.input_path, "dir/photo.jpg");
    assert_eq!(task.output_name, "photo_3.png");
    let task = plan_task(0, String::from("archive.tar.gz")).expect("has a stem");
    assert_eq!(task.output_name, "archive.tar_0.png");
}

#[test]
fn tasks_for_inputs_of_one_name_write_to_different_files() {
    let a = plan_task(0, String::from("left/cat.png")).expect("has a stem");
    let b = plan_task(1, String::from("right/cat.png")).expect("has a stem");
    assert_eq!(a.output_name, "cat_0.png");
    assert_eq!(b.output_name, "cat_1.png");
}

#[test]
fn path_without_a_file_name_is_refused() {
    assert_eq!(plan_task(0, String::from("")), Err(ErrorKind::InvalidArgument));
    assert_eq!(plan_task(1, String::from("..")), Err(ErrorKind::InvalidArgument));
    assert_eq!(plan_task(2, String::from("/")), Err(ErrorKind::InvalidArgument));
}

#[test]
fn task_with_and_without_a_stem() {
    let task = task_with_stem(5, String::from("in.png"), Some(String::from("in"))).expect("stem");
    assert_eq!(task.index, 5);
    assert_eq!(task.input_path, "in.png");
    assert_eq!(task.output_name, "in_5.png");
    assert_eq!(task_with_stem(5, String::from("in.png"), None), Err(ErrorKind::InvalidArgument));
}

#[test]
fn a_batch_needs_a_worker() {
    assert!(matches!(BatchState::new(3, 0), Err(ErrorKind::InvalidArgument)));
    assert!(BatchState::new(0, 1).is_ok());
}

#[test]
fn an_empty_batch_finishes_at_once() {
    let mut state = BatchState::new(0, 4).expect("limit is positive");
    assert_eq!(state.next_action(), BatchAction::Finish);
    assert_eq!(state.step(None), Ok(BatchAction::Finish));
    assert_eq!(state.finish(), Ok(()));
}

#[test]
fn workers_are_started_up_to_the_limit() {
    let mut state = BatchState::new(3, 2).expect("limit is positive");
    assert_eq!(state.slots, vec![Slot::Pending; 3]);
    assert_eq!(state.step(None), Ok(BatchAction::Dispatch(0)));
    assert_eq!(state.step(None), Ok(BatchAction::Dispatch(1)));
    assert_eq!(state.step(None), Ok(BatchAction::Wait));
    assert_eq!(state.dispatched, 2);
    assert_eq!(state.step(ok(1)), Ok(BatchAction::Dispatch(2)));
    assert_eq!(state.step(None), Ok(BatchAction::Wait));
    assert_eq!(state.step(ok(2)), Ok(BatchAction::Wait));
    assert_eq!(state.step(ok(0)), Ok(BatchAction::Finish));
    assert_eq!(state.received, 3);
    assert_eq!(state.finish(), Ok(()));
}

#[test]
fn failures_are_all_reported_by_position() {
    let mut state = BatchState::new(5, 5).expect("limit is positive");
    for i in 0..5 {
        assert_eq!(state.step(None), Ok(BatchAction::Dispatch(i)));
    }
    assert_eq!(state.step(None), Ok(BatchAction::Wait));
    // Outcomes arrive in an order of their own.
    assert_eq!(state.step(failed(3, ErrorKind::EncodeFailure)), Ok(BatchAction::Wait));
    assert_eq!(state.step(ok(4)), Ok(BatchAction::Wait));
    assert_eq!(state.step(failed(1, ErrorKind::DecodeFailure)), Ok(BatchAction::Wait));
    assert_eq!(state.step(ok(0)), Ok(BatchAction::Wait));
    assert_eq!(state.step(failed(2, ErrorKind::Timeout)), Ok(BatchAction::Finish));
    assert_eq!(
        state.finish(),
        Err(vec![
            BatchFailure { index: 1, kind: ErrorKind::DecodeFailure },
            BatchFailure { index: 2, kind: ErrorKind::Timeout },
            BatchFailure { index: 3, kind: ErrorKind::EncodeFailure },
        ])
    );
    let written = state.slots.iter().filter(|s| **s == Slot::Written).count();
    assert_eq!(written, 2);
}

#[test]
fn an_outcome_is_taken_once() {
    let mut state = BatchState::new(2, 2).expect("limit is positive");
    assert_eq!(state.step(None), Ok(BatchAction::Dispatch(0)));
    assert_eq!(state.step(ok(0)), Ok(BatchAction::Dispatch(1)));
    assert_eq!(state.step(failed(0, ErrorKind::Timeout)), Err(ErrorKind::InvalidArgument));
    assert_eq!(state.record(BatchOutcome { index: 0, failure: None }), Err(ErrorKind::InvalidArgument));
    assert_eq!(state.received, 1);
    assert_eq!(state.slots, vec![Slot::Written, Slot::Pending]);
}

#[test]
fn an_outcome_for_an_input_not_started_is_refused() {
    let mut state = BatchState::new(3, 1).expect("limit is positive");
    assert_eq!(state.step(ok(0)), Err(ErrorKind::InvalidArgument));
    assert_eq!(state.step(None), Ok(BatchAction::Dispatch(0)));
    assert_eq!(state.step(ok(1)), Err(ErrorKind::InvalidArgument));
    assert_eq!(state.step(ok(7)), Err(ErrorKind::InvalidArgument));
    assert_eq!(state.dispatched, 1);
    assert_eq!(state.received, 0);
}

#[test]
fn one_worker_takes_the_inputs_in_turn() {
    let mut state = BatchState::new(3, 1).expect("limit is positive");
    assert_eq!(state.step(None), Ok(BatchAction::Dispatch(0)));
    assert_eq!(state.step(None), Ok(BatchAction::Wait));
    assert_eq!(state.step(failed(0, ErrorKind::DecodeFailure)), Ok(BatchAction::Dispatch(1)));
    assert_eq!(state.step(ok(1)), Ok(BatchAction::Dispatch(2)));
    assert_eq!(state.step(ok(2)), Ok(BatchAction::Finish));
    assert_eq!(
        state.finish(),
        Err(vec![BatchFailure { index: 0, kind: ErrorKind::DecodeFailure }])
    );
}

#[test]
fn recording_settles_the_slot() {
    let mut state = BatchState::new(2, 2).expect("limit is positive");
    assert_eq!(state.step(None), Ok(BatchAction::Dispatch(0)));
    assert_eq!(state.step(None), Ok(BatchAction::Dispatch(1)));
    assert_eq!(state.record(BatchOutcome { index: 1, failure: Some(ErrorKind::OutOfBounds) }), Ok(()));
    assert_eq!(state.slots, vec![Slot::Pending, Slot::Failed(ErrorKind::OutOfBounds)]);
    assert_eq!(state.next_action(), BatchAction::Wait);
}

#[test]
fn a_batch_is_planned_in_the_order_of_its_inputs() {
    let inputs = vec![
        String::from("a/cat.png"),
        String::from(".."),
        String::from("b/cat.png"),
        String::from("cat.jpeg"),
    ];
    let tasks = plan_batch(&inputs);
    assert_eq!(tasks.len(), 4);
    let names: Vec<Option<String>> =
        tasks.iter().map(|t| t.as_ref().ok().map(|t| t.output_name.clone())).collect();
    assert_eq!(
        names,
        vec![
            Some(String::from("cat_0.png")),
            None,
            Some(String::from("cat_2.png")),
            Some(String::from("cat_3.png")),
        ]
    );
    assert_eq!(tasks[1], Err(ErrorKind::InvalidArgument));
    for (i, task) in tasks.iter().enumerate() {
        if let Ok(task) = task {
            assert_eq!(task.index, i);
            assert_eq!(task.input_path, inputs[i]);
        }
    }
}

#[test]
fn an_empty_batch_has_no_tasks() {
    assert_eq!(plan_batch(&vec![]), vec![]);
}
