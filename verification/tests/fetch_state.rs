use scrape_rs::fetch_state::FetchState;

#[test]
fn new_board_is_empty_and_unfinished() {
    let mut state: FetchState<String> = FetchState::new(2);
    assert_eq!(state.completed(), 0);
    assert!(!state.is_finished());
    assert!(state.ready_results().is_empty());
    assert!(state.try_results().is_none());
}

#[test]
fn empty_batch_is_finished_at_once() {
    let mut state: FetchState<u32> = FetchState::new(0);
    assert!(state.is_finished());
    assert_eq!(state.try_results(), Some(Vec::new()));
}

#[test]
fn ready_results_hand_out_each_result_once_in_arrival_order() {
    let mut state: FetchState<&str> = FetchState::new(3);
    state.record(2, "c");
    state.record(0, "a");
    assert_eq!(state.completed(), 2);
    assert_eq!(state.ready_results(), vec![(2, "c"), (0, "a")]);
    assert!(state.ready_results().is_empty());
    state.record(1, "b");
    assert_eq!(state.ready_results(), vec![(1, "b")]);
    assert!(state.ready_results().is_empty());
    assert_eq!(state.completed(), 3);
    assert!(state.is_finished());
}

#[test]
fn try_results_returns_results_in_position_order() {
    let mut state: FetchState<Result<String, u16>> = FetchState::new(3);
    state.record(1, Err(404));
    assert!(state.try_results().is_none());
    state.record(2, Ok("two".to_string()));
    state.record(0, Ok("zero".to_string()));
    assert!(state.is_finished());
    assert_eq!(
        state.try_results(),
        Some(vec![Ok("zero".to_string()), Err(404), Ok("two".to_string())])
    );
    assert!(state.ready_results().is_empty());
    assert_eq!(state.completed(), 3);
}

#[test]
fn collect_takes_everything() {
    let mut state: FetchState<i32> = FetchState::new(2);
    state.record(1, 10);
    state.record(0, 20);
    assert_eq!(state.collect(), vec![20, 10]);
    assert!(state.ready_results().is_empty());
}

#[test]
fn a_drained_position_can_be_recorded_again() {
    let mut state: FetchState<i32> = FetchState::new(1);
    assert!(!state.holds_result(0));
    state.record(0, 1);
    assert!(state.holds_result(0));
    assert_eq!(state.ready_results(), vec![(0, 1)]);
    assert!(!state.holds_result(0));
    state.record(0, 2);
    assert_eq!(state.completed(), 2);
    assert_eq!(state.ready_results(), vec![(0, 2)]);
}

#[test]
fn open_board_grows_and_finishes_only_when_closed() {
    let mut state: FetchState<&str> = FetchState::new_open();
    assert!(!state.is_finished());
    let a = state.add_slot();
    let b = state.add_slot();
    assert_eq!((a, b), (0, 1));
    state.record(b, "b");
    state.record(a, "a");
    assert!(!state.is_finished());
    state.close();
    assert!(state.is_finished());
    assert_eq!(state.try_results(), Some(vec!["a", "b"]));
}

#[test]
fn closed_empty_open_board_is_finished() {
    let mut state: FetchState<u8> = FetchState::new_open();
    state.close();
    assert!(state.is_finished());
}

#[test]
fn results_taken_by_a_drain_are_left_out_of_try_results() {
    let mut state: FetchState<&str> = FetchState::new(3);
    state.record(1, "b");
    assert_eq!(state.ready_results(), vec![(1, "b")]);
    state.record(0, "a");
    state.record(2, "c");
    assert_eq!(state.total_count(), 3);
    assert_eq!(state.try_results(), Some(vec!["a", "c"]));
}

#[test]
fn drains_over_a_whole_batch_hand_out_every_position_once() {
    let mut state: FetchState<usize> = FetchState::new(4);
    let mut seen = Vec::new();
    for (step, position) in [3usize, 0, 2, 1].into_iter().enumerate() {
        state.record(position, position * 10);
        if step % 2 == 1 {
            seen.extend(state.ready_results().into_iter().map(|(i, _)| i));
        }
        assert!(state.completed() <= 4);
    }
    assert!(state.is_finished());
    seen.extend(state.ready_results().into_iter().map(|(i, _)| i));
    seen.sort();
    assert_eq!(seen, vec![0, 1, 2, 3]);
    assert_eq!(state.try_results(), Some(Vec::new()));
}
