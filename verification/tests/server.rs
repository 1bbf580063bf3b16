use rustfl::averaging::{fed_avg, Contribution, MAX_TOTAL_SAMPLES};
use rustfl::client::seal_update;
use rustfl::error::FlError;
use rustfl::secure_dp_utils::generate_fernet_key;
use rustfl::server::{get_model, update_model, AppState, UpdateOutcome, WeightsUpdate};

fn contribution(weights: Vec<i64>, num_samples: usize) -> Contribution {
    Contribution { weights, num_samples }
}

fn sealed(weights: Vec<i64>, num_samples: usize, model_version: usize, key: &str) -> WeightsUpdate {
    seal_update(weights, num_samples, 0, model_version, key, 3, 2).unwrap()
}

fn aggregated(outcome: Result<UpdateOutcome, FlError>) -> (usize, Vec<i64>) {
    match outcome {
        Ok(UpdateOutcome::Aggregated { model_version, model_weights }) => (model_version, model_weights),
        _ => panic!("the update did not complete the round"),
    }
}

fn waiting(outcome: Result<UpdateOutcome, FlError>) -> (usize, usize) {
    match outcome {
        Ok(UpdateOutcome::Waiting { received, aggregation_goal }) => (received, aggregation_goal),
        _ => panic!("the update was not buffered"),
    }
}

fn error(outcome: Result<UpdateOutcome, FlError>) -> FlError {
    match outcome {
        Err(e) => e,
        Ok(_) => panic!("the update was accepted"),
    }
}

#[test]
fn the_default_server_aggregates_every_update() {
    let state = AppState::default();
    assert_eq!(state.aggregation_goal(), 1);
    assert_eq!(state.current_model_version(), 0);
    assert_eq!(state.pending_updates(), 0);
    assert!(state.can_advance());
    let snapshot = get_model(&state);
    assert_eq!(snapshot.model_version, 0);
    assert!(snapshot.model_state_dict.is_empty());
}

#[test]
fn a_new_server_hands_out_its_initial_model() {
    let state = AppState::new(4, vec![1, 2, 3]);
    assert_eq!(state.aggregation_goal(), 4);
    let snapshot = get_model(&state);
    assert_eq!(snapshot.model_state_dict, vec![1, 2, 3]);
    assert_eq!(snapshot.model_version, 0);
}

#[test]
fn one_client_completes_a_round_of_one() {
    let key = generate_fernet_key();
    let mut state = AppState::new(1, vec![]);
    let update = sealed(vec![1_500_000, -250_000], 7, 0, &key);
    let (version, weights) = aggregated(update_model(&mut state, &update, &key));
    assert_eq!(version, 1);
    assert_eq!(weights, vec![1_500_000, -250_000]);
    assert_eq!(state.current_model_version(), 1);
    assert_eq!(state.pending_updates(), 0);
    let snapshot = get_model(&state);
    assert_eq!(snapshot.model_version, 1);
    assert_eq!(snapshot.model_state_dict, vec![1_500_000, -250_000]);
}

#[test]
fn the_second_of_two_clients_completes_the_round_and_a_third_is_stale() {
    let key = generate_fernet_key();
    let mut state = AppState::new(2, vec![0, 0]);
    let first = sealed(vec![1_000_000, 4_000_000], 1, 0, &key);
    let second = sealed(vec![5_000_000, -4_000_000], 3, 0, &key);
    let third = sealed(vec![9_000_000, 9_000_000], 1, 0, &key);

    assert_eq!(waiting(update_model(&mut state, &first, &key)), (1, 2));
    assert_eq!(state.current_model_version(), 0);
    assert_eq!(state.pending_updates(), 1);
    assert_eq!(get_model(&state).model_state_dict, vec![0, 0]);

    let (version, weights) = aggregated(update_model(&mut state, &second, &key));
    assert_eq!(version, 1);
    assert_eq!(weights, vec![4_000_000, -2_000_000]);
    assert_eq!(state.current_model_version(), 1);
    assert_eq!(state.pending_updates(), 0);

    assert_eq!(error(update_model(&mut state, &third, &key)), FlError::VersionConflict);
    assert_eq!(state.current_model_version(), 1);
    assert_eq!(state.pending_updates(), 0);
    assert_eq!(get_model(&state).model_state_dict, vec![4_000_000, -2_000_000]);
}

#[test]
fn the_buffer_grows_by_one_until_the_goal() {
    let mut state = AppState::new(4, vec![]);
    for received in 1..4 {
        let outcome = state.submit_contribution(0, vec![received as i64], 1);
        assert_eq!(waiting(outcome), (received, 4));
        assert_eq!(state.pending_updates(), received);
        assert_eq!(state.current_model_version(), 0);
    }
    let (version, weights) = aggregated(state.submit_contribution(0, vec![6], 1));
    assert_eq!(version, 1);
    assert_eq!(weights, vec![3]);
    assert_eq!(state.pending_updates(), 0);
    assert_eq!(waiting(state.submit_contribution(1, vec![1], 1)), (1, 4));
}

#[test]
fn a_conflicting_update_is_not_buffered() {
    let mut state = AppState::new(3, vec![5]);
    assert_eq!(error(state.submit_contribution(1, vec![1], 1)), FlError::VersionConflict);
    assert_eq!(state.pending_updates(), 0);
    assert_eq!(waiting(state.submit_contribution(0, vec![1], 1)), (1, 3));
    assert_eq!(error(state.submit_contribution(7, vec![1], 1)), FlError::VersionConflict);
    assert_eq!(state.pending_updates(), 1);
    assert_eq!(state.current_model_version(), 0);
}

#[test]
fn a_malformed_update_does_not_count_towards_the_goal() {
    let key = generate_fernet_key();
    let mut state = AppState::new(2, vec![]);
    let good = sealed(vec![2, 4], 1, 0, &key);
    assert_eq!(waiting(update_model(&mut state, &good, &key)), (1, 2));

    let garbage = WeightsUpdate {
        model_weights: vec!["a".to_string(), "b".to_string()],
        num_samples: 1,
        loss: 0,
        model_version: 0,
    };
    assert_eq!(error(update_model(&mut state, &garbage, &key)), FlError::MalformedUpdate);
    let wrong_key = sealed(vec![2, 4], 1, 0, &generate_fernet_key());
    assert_eq!(error(update_model(&mut state, &wrong_key, &key)), FlError::MalformedUpdate);
    assert_eq!(error(update_model(&mut state, &good, "secret_key")), FlError::MalformedUpdate);
    let no_tokens =
        WeightsUpdate { model_weights: vec![], num_samples: 1, loss: 0, model_version: 0 };
    assert_eq!(error(update_model(&mut state, &no_tokens, &key)), FlError::MalformedUpdate);
    assert_eq!(error(update_model(&mut state, &no_tokens, "secret_key")), FlError::MalformedUpdate);
    let no_samples = sealed(vec![2, 4], 0, 0, &key);
    assert_eq!(error(update_model(&mut state, &no_samples, &key)), FlError::MalformedUpdate);
    let other_length = sealed(vec![2, 4, 6], 1, 0, &key);
    assert_eq!(error(update_model(&mut state, &other_length, &key)), FlError::MalformedUpdate);
    let too_many = sealed(vec![2, 4], MAX_TOTAL_SAMPLES as usize, 0, &key);
    assert_eq!(error(update_model(&mut state, &too_many, &key)), FlError::MalformedUpdate);
    let stale_garbage = WeightsUpdate {
        model_weights: vec!["a".to_string()],
        num_samples: 1,
        loss: 0,
        model_version: 3,
    };
    assert_eq!(error(update_model(&mut state, &stale_garbage, &key)), FlError::VersionConflict);

    assert_eq!(state.pending_updates(), 1);
    assert_eq!(state.current_model_version(), 0);
    let (version, weights) = aggregated(update_model(&mut state, &good, &key));
    assert_eq!(version, 1);
    assert_eq!(weights, vec![2, 4]);
}

#[test]
fn averaging_weights_every_client_by_its_samples() {
    let round = vec![
        contribution(vec![10, -10, 7], 1),
        contribution(vec![20, -20, 7], 3),
    ];
    // (10 + 60) / 4 = 17.5, (-10 - 60) / 4 = -17.5, both rounded towards zero
    assert_eq!(fed_avg(&round), Some(vec![17, -17, 7]));
    assert_eq!(fed_avg(&vec![contribution(vec![], 2)]), Some(vec![]));
    let extremes = vec![
        contribution(vec![i64::MAX, i64::MIN], (MAX_TOTAL_SAMPLES / 2) as usize),
        contribution(vec![i64::MAX, i64::MIN], (MAX_TOTAL_SAMPLES / 2) as usize),
    ];
    assert_eq!(fed_avg(&extremes), Some(vec![i64::MAX, i64::MIN]));
}

#[test]
fn averaging_nothing_does_nothing() {
    assert_eq!(fed_avg(&vec![]), None);
    assert_eq!(fed_avg(&vec![contribution(vec![1], 0)]), None);
    assert_eq!(fed_avg(&vec![contribution(vec![1], 1), contribution(vec![1, 2], 1)]), None);
    let too_many = vec![
        contribution(vec![1], MAX_TOTAL_SAMPLES as usize),
        contribution(vec![1], 1),
    ];
    assert_eq!(fed_avg(&too_many), None);
}
