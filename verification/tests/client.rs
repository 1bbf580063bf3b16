use rand_distr::{Distribution, Normal};
use rustfl::client::{
    classify, prepare_update, Config, Event, Phase, Round, Session, MAX_CONFLICT_RETRIES,
    NUM_SHARES, THRESHOLD,
};
use rustfl::error::FlError;
use rustfl::secure_dp_utils::{generate_fernet_key, open_update, DPMechanism};
use rustfl::sharing::WEIGHT_SCALE;

fn fixed(value: f64) -> i64 {
    (value * WEIGHT_SCALE as f64).round() as i64
}

fn unscaled(value: i64) -> f64 {
    value as f64 / WEIGHT_SCALE as f64
}

fn standard_draws(count: usize) -> Vec<i64> {
    let normal_dist = Normal::new(0.0, 1.0).unwrap();
    let mut rng = rand::thread_rng();
    let mut draws = Vec::new();
    while draws.len() < count {
        let draw = fixed(normal_dist.sample(&mut rng));
        if draw != 0 {
            draws.push(draw);
        }
    }
    draws
}

#[test]
fn test_default_config() {
    let config = Config::default();
    assert_eq!(unscaled(config.learning_rate), 0.001);
    assert_eq!(config.batch_size, 64);
    assert_eq!(unscaled(config.noise_level), 0.1);
    assert_eq!(config.num_rounds, 3);
    assert_eq!(unscaled(config.sensitivity), 1.0);
    assert_eq!(unscaled(config.epsilon), 0.5);
}

#[test]
fn a_configuration_keeps_its_values() {
    let config = Config::new(fixed(0.5), 128, fixed(0.5), 5, fixed(0.5), fixed(1.5));
    assert_eq!(config.learning_rate, 500_000);
    assert_eq!(config.batch_size, 128);
    assert_eq!(config.noise_level, 500_000);
    assert_eq!(config.num_rounds, 5);
    assert_eq!(config.sensitivity, 500_000);
    assert_eq!(config.epsilon, 1_500_000);
}

#[test]
fn test_add_noise() {
    let dp_mechanism = DPMechanism::new(fixed(1.0), fixed(1.0));
    let weights = vec![fixed(1.0), fixed(2.0), fixed(3.0)];

    let noisy_weights = dp_mechanism.add_noise(&weights, &standard_draws(3)).unwrap();

    assert_eq!(noisy_weights.len(), weights.len());
    for (weight, noisy) in weights.iter().zip(noisy_weights.iter()) {
        assert!((*weight - *noisy).abs() > 0);
    }
}

#[test]
fn the_noise_is_the_draw_scaled_by_sensitivity_over_epsilon() {
    // sensitivity 1, epsilon 0.5: a standard deviation of 2
    let mechanism = DPMechanism::new(fixed(0.5), fixed(1.0));
    assert_eq!(mechanism.noise_std(), Ok(2_000_000));
    let weights = vec![fixed(1.0), fixed(-1.0), 0, 5];
    let draws = vec![fixed(0.25), fixed(-1.5), 0, -1];
    assert_eq!(
        mechanism.add_noise(&weights, &draws),
        Ok(vec![fixed(1.5), fixed(-4.0), 0, 3])
    );
    // the quotient is rounded towards zero: 1 / 3 and -1 / 3 in millionths
    assert_eq!(DPMechanism::new(fixed(3.0), fixed(1.0)).noise_std(), Ok(333_333));
    assert_eq!(DPMechanism::new(fixed(3.0), fixed(-1.0)).noise_std(), Ok(-333_333));
    let third = DPMechanism::new(fixed(3.0), fixed(1.0));
    assert_eq!(third.add_noise(&vec![0, 0], &vec![2, -2]), Ok(vec![0, 0]));
    assert_eq!(third.add_noise(&vec![0, 0], &vec![4, -4]), Ok(vec![1, -1]));
}

#[test]
fn noisy_weights_stay_within_64_bits() {
    let mechanism = DPMechanism::new(1, i64::MAX);
    assert_eq!(mechanism.noise_std(), Ok(i64::MAX));
    assert_eq!(
        mechanism.add_noise(&vec![i64::MAX, i64::MIN, 0], &vec![i64::MAX, i64::MIN, i64::MIN]),
        Ok(vec![i64::MAX, i64::MIN, i64::MIN])
    );
}

#[test]
fn a_privacy_budget_that_is_not_positive_is_invalid() {
    for epsilon in [0, -1, i64::MIN] {
        let mechanism = DPMechanism::new(epsilon, fixed(1.0));
        assert_eq!(mechanism.noise_std(), Err(FlError::InvalidPrivacyBudget));
        assert_eq!(mechanism.add_noise(&vec![1], &vec![1]), Err(FlError::InvalidPrivacyBudget));
        assert_eq!(mechanism.add_noise(&vec![], &vec![]), Err(FlError::InvalidPrivacyBudget));
    }
}

#[test]
fn noise_averages_out_over_many_trials() {
    let mechanism = DPMechanism::new(fixed(0.5), fixed(1.0));
    let weights = vec![fixed(1.0), fixed(-2.0), fixed(3.0)];
    let trials = 20_000;
    let mut sums = vec![0.0; weights.len()];
    for _ in 0..trials {
        let noisy = mechanism.add_noise(&weights, &standard_draws(weights.len())).unwrap();
        for (sum, value) in sums.iter_mut().zip(noisy.iter()) {
            *sum += unscaled(*value);
        }
    }
    let tolerance = 6.0 * 2.0 / (trials as f64).sqrt();
    for (sum, weight) in sums.iter().zip(weights.iter()) {
        assert!((sum / trials as f64 - unscaled(*weight)).abs() < tolerance);
    }
}

#[test]
fn a_prepared_update_carries_the_noisy_weights() {
    let key = generate_fernet_key();
    let config = Config::default();
    let weights = vec![fixed(1.0), fixed(2.0)];
    let draws = vec![fixed(0.5), fixed(-0.5)];
    let update = prepare_update(&config, &weights, &draws, 2, fixed(0.25), 4, &key).unwrap();
    assert_eq!(update.model_weights.len(), NUM_SHARES);
    assert_eq!(update.num_samples, 2);
    assert_eq!(update.loss, 250_000);
    assert_eq!(update.model_version, 4);
    // a standard deviation of 1 / 0.5 = 2
    assert_eq!(open_update(&update.model_weights, &key), Ok(vec![fixed(2.0), fixed(1.0)]));
    // the first share sets, as many as the threshold, are enough
    assert_eq!(
        open_update(&update.model_weights[..THRESHOLD].to_vec(), &key),
        Ok(vec![fixed(2.0), fixed(1.0)])
    );
}

#[test]
fn preparing_reports_its_errors() {
    let key = generate_fernet_key();
    let spent = Config::new(1_000, 64, 100_000, 3, 1_000_000, 0);
    assert_eq!(
        prepare_update(&spent, &vec![1], &vec![1], 1, 0, 0, &key).err(),
        Some(FlError::InvalidPrivacyBudget)
    );
    assert_eq!(
        prepare_update(&spent, &vec![1], &vec![1], 1, 0, 0, "secret_key").err(),
        Some(FlError::InvalidPrivacyBudget)
    );
    assert_eq!(
        prepare_update(&Config::default(), &vec![1], &vec![1], 1, 0, 0, "secret_key").err(),
        Some(FlError::InvalidKey)
    );
}

#[test]
fn answers_read_by_their_status() {
    assert_eq!(classify(200), Ok(()));
    assert_eq!(classify(299), Ok(()));
    assert_eq!(classify(409), Err(FlError::VersionConflict));
    assert_eq!(classify(400), Err(FlError::MalformedUpdate));
    assert_eq!(classify(422), Err(FlError::MalformedUpdate));
    assert_eq!(classify(199), Err(FlError::NetworkUnreachable));
    assert_eq!(classify(300), Err(FlError::NetworkUnreachable));
    assert_eq!(classify(500), Err(FlError::NetworkUnreachable));
}

#[test]
fn errors_travel_under_their_status() {
    assert_eq!(FlError::VersionConflict.status(), 409);
    assert_eq!(FlError::MalformedUpdate.status(), 422);
    assert_eq!(FlError::NetworkUnreachable.status(), 503);
    assert_eq!(FlError::InvalidPrivacyBudget.status(), 400);
    assert_eq!(FlError::ShareCountError.status(), 400);
    assert_eq!(FlError::InvalidKey.status(), 400);
    assert_eq!(FlError::DecryptionFailed.status(), 400);
    assert_eq!(classify(FlError::VersionConflict.status()), Err(FlError::VersionConflict));
    assert_eq!(classify(FlError::MalformedUpdate.status()), Err(FlError::MalformedUpdate));
}

#[test]
fn a_round_runs_from_fetch_to_accepted() {
    let mut round = Round::start();
    assert_eq!(round.phase, Phase::Fetch);
    assert!(!round.is_over());
    round = round.step(Event::Fetched { model_version: 3 }, MAX_CONFLICT_RETRIES);
    assert_eq!(round, Round { phase: Phase::Train, model_version: 3, conflicts: 0 });
    for phase in [Phase::Sanitize, Phase::Split, Phase::Encrypt, Phase::Submit] {
        round = round.step(Event::Done, MAX_CONFLICT_RETRIES);
        assert_eq!(round, Round { phase, model_version: 3, conflicts: 0 });
    }
    round = round.step(Event::Answered { status: 200 }, MAX_CONFLICT_RETRIES);
    assert_eq!(round, Round { phase: Phase::Accepted, model_version: 3, conflicts: 0 });
    assert!(round.is_over());
    assert_eq!(round.step(Event::Fetched { model_version: 9 }, MAX_CONFLICT_RETRIES), round);
}

#[test]
fn a_conflict_leads_to_a_refetch_and_a_retry() {
    let submit = Round { phase: Phase::Submit, model_version: 3, conflicts: 0 };
    let refetch = submit.step(Event::Answered { status: 409 }, 2);
    assert_eq!(refetch, Round { phase: Phase::Refetch, model_version: 3, conflicts: 1 });
    let retry = refetch.step(Event::Fetched { model_version: 4 }, 2);
    assert_eq!(retry, Round { phase: Phase::Submit, model_version: 4, conflicts: 1 });
    let accepted = retry.step(Event::Answered { status: 200 }, 2);
    assert_eq!(accepted.phase, Phase::Accepted);
}

#[test]
fn retries_are_bounded() {
    let max_retries = 2;
    let mut round = Round { phase: Phase::Submit, model_version: 0, conflicts: 0 };
    let mut submissions = 0;
    while !round.is_over() {
        assert_eq!(round.phase, Phase::Submit);
        submissions += 1;
        round = round.step(Event::Answered { status: 409 }, max_retries);
        if round.phase == Phase::Refetch {
            round = round.step(Event::Fetched { model_version: submissions }, max_retries);
        }
    }
    assert_eq!(submissions, max_retries + 1);
    assert_eq!(
        round,
        Round { phase: Phase::Failed(FlError::VersionConflict), model_version: 2, conflicts: 2 }
    );
    let never = Round { phase: Phase::Submit, model_version: 0, conflicts: 0 };
    assert_eq!(
        never.step(Event::Answered { status: 409 }, 0).phase,
        Phase::Failed(FlError::VersionConflict)
    );
}

#[test]
fn failures_end_the_round() {
    let fetch = Round::start();
    assert_eq!(
        fetch.step(Event::Unreachable, 3).phase,
        Phase::Failed(FlError::NetworkUnreachable)
    );
    for phase in [Phase::Sanitize, Phase::Split, Phase::Encrypt] {
        let round = Round { phase, model_version: 1, conflicts: 0 };
        for error in [FlError::InvalidPrivacyBudget, FlError::ShareCountError, FlError::InvalidKey] {
            assert_eq!(round.step(Event::Rejected(error), 3).phase, Phase::Failed(error));
        }
    }
    let submit = Round { phase: Phase::Submit, model_version: 1, conflicts: 1 };
    assert_eq!(
        submit.step(Event::Unreachable, 3).phase,
        Phase::Failed(FlError::NetworkUnreachable)
    );
    assert_eq!(
        submit.step(Event::Answered { status: 422 }, 3).phase,
        Phase::Failed(FlError::MalformedUpdate)
    );
    assert_eq!(
        submit.step(Event::Answered { status: 500 }, 3).phase,
        Phase::Failed(FlError::NetworkUnreachable)
    );
    let refetch = Round { phase: Phase::Refetch, model_version: 1, conflicts: 1 };
    assert_eq!(
        refetch.step(Event::Unreachable, 3).phase,
        Phase::Failed(FlError::NetworkUnreachable)
    );
    let failed = Round { phase: Phase::Failed(FlError::InvalidKey), model_version: 1, conflicts: 0 };
    assert!(failed.is_over());
    assert_eq!(failed.step(Event::Done, 3), failed);
}

#[test]
fn an_event_that_was_not_asked_for_changes_nothing() {
    let train = Round { phase: Phase::Train, model_version: 1, conflicts: 0 };
    assert_eq!(train.step(Event::Answered { status: 200 }, 3), train);
    assert_eq!(train.step(Event::Fetched { model_version: 2 }, 3), train);
    assert_eq!(train.step(Event::Rejected(FlError::InvalidKey), 3), train);
    assert_eq!(train.step(Event::Unreachable, 3), train);
    let fetch = Round::start();
    assert_eq!(fetch.step(Event::Done, 3), fetch);
}

#[test]
fn a_session_prepares_updates_under_its_own_key() {
    let session = Session::begin();
    assert_eq!(session.encryption_key().len(), 44);
    assert_ne!(session.encryption_key(), Session::begin().encryption_key());
    let config = Config::default();
    let update = session
        .prepare_update(&config, &vec![fixed(1.0)], &vec![fixed(-0.25)], 5, 0, 2)
        .unwrap();
    assert_eq!(update.model_version, 2);
    assert_eq!(update.num_samples, 5);
    assert_eq!(open_update(&update.model_weights, session.encryption_key()), Ok(vec![fixed(0.5)]));
    let spent = Config::new(1_000, 64, 100_000, 3, 1_000_000, -5);
    assert_eq!(
        session.prepare_update(&spent, &vec![1], &vec![1], 1, 0, 0).err(),
        Some(FlError::InvalidPrivacyBudget)
    );
}
