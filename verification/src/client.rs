//! The client's side of a round: its configuration, the sealing of a weight
//! vector into an update, and the state machine that leads a round from
//! fetching the model to an accepted update.
//!
//! The state machine decides; the caller acts. It performs what the phase
//! asks for (a request, the training, a sealing step) and reports what came
//! of it as an event.

use vstd::prelude::*;
use crate::error::FlError;
use crate::secure_dp_utils::{
    fernet_key_accepted, generate_fernet_key, noise_std_of, noisy, fernet_payload, plaintext_contribution, seal_share,
    sealed_contribution, secret_share_weights, share_sets, token_texts, DPMechanism,
};
use crate::server::WeightsUpdate;
use crate::share_text::{encode_share_set, lemma_parsed_of_share_text, parsed, share_text};
use crate::sharing::{is_sharing, lemma_reconstruction_of_sharing, share_counts_valid};

verus! {

/// The number of share sets a client makes of its weights.
pub const NUM_SHARES: usize = 3;

/// The number of share sets that reconstruct the weights.
pub const THRESHOLD: usize = 2;

/// How often a client refetches and resubmits after a version conflict
/// before it gives the round up.
pub const MAX_CONFLICT_RETRIES: usize = 3;

/// The configuration of training and of the noise mechanism. Fractions are
/// held in fixed point, in millionths.
#[derive(Clone, Copy, Debug, PartialEq, Eq)]
pub struct Config {
    pub learning_rate: i64,
    pub batch_size: usize,
    pub noise_level: i64,
    pub num_rounds: usize,
    pub sensitivity: i64,
    pub epsilon: i64,
}

impl Config {
    /// A configuration with the given values.
    pub fn new(
        learning_rate: i64,
        batch_size: usize,
        noise_level: i64,
        num_rounds: usize,
        sensitivity: i64,
        epsilon: i64,
    ) -> (config: Config)
        ensures
            config.learning_rate == learning_rate,
            config.batch_size == batch_size,
            config.noise_level == noise_level,
            config.num_rounds == num_rounds,
            config.sensitivity == sensitivity,
            config.epsilon == epsilon,
    {
        Config { learning_rate, batch_size, noise_level, num_rounds, sensitivity, epsilon }
    }

    /// The configuration used where none is given: learning rate 0.001,
    /// batches of 64, noise level 0.1, 3 rounds, sensitivity 1 and privacy
    /// budget 0.5.
    pub fn default() -> (config: Config)
        ensures
            config.learning_rate == 1_000,
            config.batch_size == 64,
            config.noise_level == 100_000,
            config.num_rounds == 3,
            config.sensitivity == 1_000_000,
            config.epsilon == 500_000,
    {
        Config {
            learning_rate: 1_000,
            batch_size: 64,
            noise_level: 100_000,
            num_rounds: 3,
            sensitivity: 1_000_000,
            epsilon: 500_000,
        }
    }
}

/// A sealed update carries the weights: under the key, the server opens
/// its tokens into exactly these weights.
pub open spec fn carries(update: WeightsUpdate, key: Seq<char>, weights: Seq<i64>) -> bool {
    sealed_contribution(key, token_texts(update.model_weights@)) == Some(weights)
}

/// The noisy weights are the weights with the noise that the draws give
/// under the configuration's privacy parameters.
pub open spec fn sanitized(
    noisy_weights: Seq<i64>,
    weights: Seq<i64>,
    draws: Seq<i64>,
    config: Config,
) -> bool {
    &&& noisy_weights.len() == weights.len()
    &&& forall|i: int|
        0 <= i < weights.len() ==> (#[trigger] noisy_weights[i]) as int == noisy(
            weights[i] as int,
            draws[i] as int,
            noise_std_of(config.epsilon as int, config.sensitivity as int),
        )
}

/// Seals a weight vector into an update: the weights are split into
/// `num_shares` share sets of which `threshold` reconstruct them, and every
/// share set is serialized and encrypted under the key.
///
/// Fails with `ShareCountError` where there are shares to make and the
/// counts are not valid, and otherwise with `InvalidKey` where there are
/// shares to encrypt and the key is malformed.
pub fn seal_update(
    weights: Vec<i64>,
    num_samples: usize,
    loss: i64,
    model_version: usize,
    key: &str,
    num_shares: usize,
    threshold: usize,
) -> (r: Result<WeightsUpdate, FlError>)
    ensures
        match r {
            Ok(update) => {
                &&& update.num_samples == num_samples
                &&& update.loss == loss
                &&& update.model_version == model_version
                &&& update.model_weights.len() == num_shares
                &&& num_shares > 0 ==> {
                    &&& share_counts_valid(num_shares as nat, threshold as nat)
                    &&& fernet_key_accepted(key@)
                    &&& carries(update, key@, weights@)
                }
            },
            Err(e) => {
                &&& num_shares > 0
                &&& if share_counts_valid(num_shares as nat, threshold as nat) {
                    e == FlError::InvalidKey && !fernet_key_accepted(key@)
                } else {
                    e == FlError::ShareCountError
                }
            },
        },
{
    let ghost secret = weights@;
    let shares = match secret_share_weights(weights, num_shares, threshold) {
        Ok(shares) => shares,
        Err(e) => {
            return Err(e);
        },
    };
    let ghost sets = share_sets(shares@);
    let mut tokens: Vec<String> = Vec::new();
    let mut i: usize = 0;
    while i < shares.len()
        invariant
            sets == share_sets(shares@),
            shares.len() == num_shares,
            num_shares > 0 ==> share_counts_valid(num_shares as nat, threshold as nat),
            i <= shares.len(),
            tokens.len() == i,
            i > 0 ==> fernet_key_accepted(key@),
            forall|j: int|
                0 <= j < i ==> fernet_payload(key@, (#[trigger] tokens[j])@) == Some(
                    share_text(sets[j]),
                ),
        decreases shares.len() - i,
    {
        let text = encode_share_set(&shares[i]);
        assert(sets[i as int] == shares[i as int]@);
        match seal_share(text.as_str(), key) {
            Ok(token) => {
                tokens.push(token);
            },
            Err(e) => {
                return Err(e);
            },
        }
        i += 1;
    }
    let update = WeightsUpdate { model_weights: tokens, num_samples, loss, model_version };
    proof {
        if num_shares > 0 {
            let polys = choose|polys: Seq<Seq<int>>| #[trigger]
                is_sharing(sets, secret, polys, num_shares as nat, threshold as nat);
            lemma_reconstruction_of_sharing(
                sets,
                secret,
                polys,
                num_shares as nat,
                threshold as nat,
            );
            let texts = token_texts(update.model_weights@);
            let plaintexts = Seq::new(texts.len(), |j: int| fernet_payload(key@, texts[j]).unwrap());
            assert forall|j: int| 0 <= j < texts.len() implies fernet_payload(
                key@,
                #[trigger] texts[j],
            ) == Some(share_text(sets[j])) by {
                assert(texts[j] == update.model_weights[j]@);
            }
            assert forall|j: int| 0 <= j < plaintexts.len() implies parsed(
                #[trigger] plaintexts[j],
            ) == Some(sets[j]) by {
                assert(fernet_payload(key@, texts[j]) == Some(share_text(sets[j])));
                lemma_parsed_of_share_text(sets[j]);
            }
            assert(Seq::new(plaintexts.len(), |j: int| parsed(plaintexts[j]).unwrap()) =~= sets);
            assert(plaintext_contribution(plaintexts) == Some(secret));
        }
    }
    Ok(update)
}

/// Prepares a client's update for submission: noise is added to the
/// weights as the configuration's privacy parameters ask, and the noisy
/// weights are sealed under the key into `NUM_SHARES` share sets of which
/// `THRESHOLD` reconstruct them.
///
/// Fails with `InvalidPrivacyBudget` where the privacy budget is not
/// positive, and otherwise with `InvalidKey` where the key is malformed.
pub fn prepare_update(
    config: &Config,
    weights: &Vec<i64>,
    draws: &Vec<i64>,
    num_samples: usize,
    loss: i64,
    model_version: usize,
    key: &str,
) -> (r: Result<WeightsUpdate, FlError>)
    requires
        draws.len() == weights.len(),
    ensures
        match r {
            Ok(update) => {
                &&& config.epsilon > 0
                &&& fernet_key_accepted(key@)
                &&& update.num_samples == num_samples
                &&& update.loss == loss
                &&& update.model_version == model_version
                &&& update.model_weights.len() == NUM_SHARES
                &&& exists|noisy_weights: Seq<i64>|
                    {
                        &&& sanitized(noisy_weights, weights@, draws@, *config)
                        &&& #[trigger] carries(update, key@, noisy_weights)
                    }
            },
            Err(e) => if config.epsilon <= 0 {
                e == FlError::InvalidPrivacyBudget
            } else {
                e == FlError::InvalidKey && !fernet_key_accepted(key@)
            },
        },
{
    let mechanism = DPMechanism::new(config.epsilon, config.sensitivity);
    let noisy_weights = match mechanism.add_noise(weights, draws) {
        Ok(noisy_weights) => noisy_weights,
        Err(e) => {
            return Err(e);
        },
    };
    let ghost noisy_view = noisy_weights@;
    proof {
        lemma_default_counts_valid();
    }
    let r = seal_update(noisy_weights, num_samples, loss, model_version, key, NUM_SHARES, THRESHOLD);
    proof {
        if r is Ok {
            assert(sanitized(noisy_view, weights@, draws@, *config));
            assert(carries(r->Ok_0, key@, noisy_view));
        }
    }
    r
}

/// A client's session: it holds the key that the client encrypts its share
/// sets with, generated once when the session begins.
pub struct Session {
    encryption_key: String,
}

impl Session {
    #[verifier::type_invariant]
    spec fn key_is_accepted(self) -> bool {
        fernet_key_accepted(self.encryption_key@)
    }

    /// The text of the session's key.
    pub closed spec fn key(&self) -> Seq<char> {
        self.encryption_key@
    }

    /// Begins a session with a fresh key.
    pub fn begin() -> (session: Session)
        ensures
            fernet_key_accepted(session.key()),
    {
        Session { encryption_key: generate_fernet_key() }
    }

    /// The session's key, to be shared with the server.
    pub fn encryption_key(&self) -> (key: &str)
        ensures
            key@ == self.key(),
            fernet_key_accepted(self.key()),
    {
        proof {
            use_type_invariant(self);
        }
        self.encryption_key.as_str()
    }

    /// Prepares an update under the session's key, as [`prepare_update`]
    /// does. With a session's key the only failure left is a privacy budget
    /// that is not positive.
    pub fn prepare_update(
        &self,
        config: &Config,
        weights: &Vec<i64>,
        draws: &Vec<i64>,
        num_samples: usize,
        loss: i64,
        model_version: usize,
    ) -> (r: Result<WeightsUpdate, FlError>)
        requires
            draws.len() == weights.len(),
        ensures
            match r {
                Ok(update) => {
                    &&& config.epsilon > 0
                    &&& update.num_samples == num_samples
                    &&& update.loss == loss
                    &&& update.model_version == model_version
                    &&& update.model_weights.len() == NUM_SHARES
                    &&& exists|noisy_weights: Seq<i64>|
                        {
                            &&& sanitized(noisy_weights, weights@, draws@, *config)
                            &&& #[trigger] carries(update, self.key(), noisy_weights)
                        }
                },
                Err(e) => e == FlError::InvalidPrivacyBudget && config.epsilon <= 0,
            },
    {
        proof {
            use_type_invariant(self);
        }
        let r = prepare_update(
            config,
            weights,
            draws,
            num_samples,
            loss,
            model_version,
            self.encryption_key.as_str(),
        );
        proof {
            if r is Ok {
                let update = r->Ok_0;
                let noisy_weights = choose|noisy_weights: Seq<i64>|
                    sanitized(noisy_weights, weights@, draws@, *config) && #[trigger] carries(
                        update,
                        self.encryption_key@,
                        noisy_weights,
                    );
                assert(carries(update, self.key(), noisy_weights));
            }
        }
        r
    }
}

/// The counts that clients share their weights with are valid.
pub proof fn lemma_default_counts_valid()
    ensures
        share_counts_valid(NUM_SHARES as nat, THRESHOLD as nat),
{
    reveal_with_fuel(crate::polynomial::geometric, 3);
    assert(crate::polynomial::geometric(3, 1) == 1) by {
        assert(3 * crate::polynomial::geometric(3, 0) == 0);
    }
}

/// Where a round stands, which is also what the caller is to do next.
#[derive(Clone, Copy, Debug, PartialEq, Eq, Structural)]
pub enum Phase {
    /// Fetch the global model and its version.
    Fetch,
    /// Train the local model.
    Train,
    /// Add noise to the trained weights.
    Sanitize,
    /// Split the noisy weights into share sets.
    Split,
    /// Encrypt the share sets.
    Encrypt,
    /// Submit the update under the version last fetched.
    Submit,
    /// Fetch the global model again after a version conflict.
    Refetch,
    /// The server accepted the update; the round is over.
    Accepted,
    /// The round was given up.
    Failed(FlError),
}

/// What came of the action a phase asked for.
#[derive(Clone, Copy, Debug, PartialEq, Eq, Structural)]
pub enum Event {
    /// The server answered a fetch with its model version.
    Fetched { model_version: usize },
    /// A local step (training or a sealing step) is done.
    Done,
    /// A sealing step failed.
    Rejected(FlError),
    /// The server answered a submission with a status code.
    Answered { status: u16 },
    /// The server could not be reached.
    Unreachable,
}

/// A client's round.
#[derive(Clone, Copy, Debug, PartialEq, Eq, Structural)]
pub struct Round {
    /// Where the round stands.
    pub phase: Phase,
    /// The model version last fetched.
    pub model_version: usize,
    /// The version conflicts met so far.
    pub conflicts: usize,
}

/// How a server's answer to a submission reads: success, a version
/// conflict, a refusal of the update, or a failure of the server.
pub open spec fn spec_classify(status: u16) -> Result<(), FlError> {
    if 200 <= status < 300 {
        Ok(())
    } else if status == 409 {
        Err(FlError::VersionConflict)
    } else if 400 <= status < 500 {
        Err(FlError::MalformedUpdate)
    } else {
        Err(FlError::NetworkUnreachable)
    }
}

/// Reads a server's answer to a submission.
pub fn classify(status: u16) -> (r: Result<(), FlError>)
    ensures
        r == spec_classify(status),
{
    if 200 <= status && status < 300 {
        Ok(())
    } else if status == 409 {
        Err(FlError::VersionConflict)
    } else if 400 <= status && status < 500 {
        Err(FlError::MalformedUpdate)
    } else {
        Err(FlError::NetworkUnreachable)
    }
}

impl Round {
    /// A round at its beginning.
    pub open spec fn spec_start() -> Round {
        Round { phase: Phase::Fetch, model_version: 0, conflicts: 0 }
    }

    /// A round at its beginning.
    #[verifier::when_used_as_spec(spec_start)]
    pub fn start() -> (round: Round)
        ensures
            round == Round::spec_start(),
    {
        Round { phase: Phase::Fetch, model_version: 0, conflicts: 0 }
    }

    /// The round is over.
    pub open spec fn spec_is_over(self) -> bool {
        self.phase is Accepted || self.phase is Failed
    }

    /// Whether the round is over.
    #[verifier::when_used_as_spec(spec_is_over)]
    pub fn is_over(self) -> (over: bool)
        ensures
            over == self.spec_is_over(),
    {
        match self.phase {
            Phase::Accepted => true,
            Phase::Failed(_) => true,
            _ => false,
        }
    }

    /// The round with another phase.
    pub open spec fn at(self, phase: Phase) -> Round {
        Round { phase, model_version: self.model_version, conflicts: self.conflicts }
    }

    /// The round after an event. An event that the phase did not ask for
    /// leaves the round as it is. A version conflict leads to a refetch and
    /// a resubmission under the version then fetched, `max_retries` times at
    /// most; after that the round fails with the conflict.
    pub open spec fn spec_step(self, event: Event, max_retries: usize) -> Round {
        match (self.phase, event) {
            (Phase::Fetch, Event::Fetched { model_version }) => Round {
                phase: Phase::Train,
                model_version,
                conflicts: self.conflicts,
            },
            (Phase::Fetch, Event::Unreachable) => self.at(
                Phase::Failed(FlError::NetworkUnreachable),
            ),
            (Phase::Train, Event::Done) => self.at(Phase::Sanitize),
            (Phase::Sanitize, Event::Done) => self.at(Phase::Split),
            (Phase::Sanitize, Event::Rejected(e)) => self.at(Phase::Failed(e)),
            (Phase::Split, Event::Done) => self.at(Phase::Encrypt),
            (Phase::Split, Event::Rejected(e)) => self.at(Phase::Failed(e)),
            (Phase::Encrypt, Event::Done) => self.at(Phase::Submit),
            (Phase::Encrypt, Event::Rejected(e)) => self.at(Phase::Failed(e)),
            (Phase::Submit, Event::Answered { status }) => match spec_classify(status) {
                Ok(()) => self.at(Phase::Accepted),
                Err(FlError::VersionConflict) => if self.conflicts < max_retries {
                    Round {
                        phase: Phase::Refetch,
                        model_version: self.model_version,
                        conflicts: (self.conflicts + 1) as usize,
                    }
                } else {
                    self.at(Phase::Failed(FlError::VersionConflict))
                },
                Err(e) => self.at(Phase::Failed(e)),
            },
            (Phase::Submit, Event::Unreachable) => self.at(
                Phase::Failed(FlError::NetworkUnreachable),
            ),
            (Phase::Refetch, Event::Fetched { model_version }) => Round {
                phase: Phase::Submit,
                model_version,
                conflicts: self.conflicts,
            },
            (Phase::Refetch, Event::Unreachable) => self.at(
                Phase::Failed(FlError::NetworkUnreachable),
            ),
            _ => self,
        }
    }

    /// An upper bound on the events that can still change the round.
    pub open spec fn budget(self, max_retries: usize) -> int {
        let retries_left = max_retries - self.conflicts;
        match self.phase {
            Phase::Fetch => 3 * max_retries + 7,
            Phase::Train => 3 * max_retries + 6,
            Phase::Sanitize => 3 * max_retries + 5,
            Phase::Split => 3 * max_retries + 4,
            Phase::Encrypt => 3 * max_retries + 3,
            Phase::Refetch => 3 * retries_left + 3,
            Phase::Submit => 3 * retries_left + 2,
            Phase::Accepted => 0,
            Phase::Failed(_) => 0,
        }
    }

    /// Advances the round by an event.
    #[verifier::when_used_as_spec(spec_step)]
    pub fn step(self, event: Event, max_retries: usize) -> (next: Round)
        ensures
            next == self.spec_step(event, max_retries),
    {
        match (self.phase, event) {
            (Phase::Fetch, Event::Fetched { model_version }) => Round {
                phase: Phase::Train,
                model_version,
                conflicts: self.conflicts,
            },
            (Phase::Fetch, Event::Unreachable) => self.failed(FlError::NetworkUnreachable),
            (Phase::Train, Event::Done) => self.moved(Phase::Sanitize),
            (Phase::Sanitize, Event::Done) => self.moved(Phase::Split),
            (Phase::Sanitize, Event::Rejected(e)) => self.failed(e),
            (Phase::Split, Event::Done) => self.moved(Phase::Encrypt),
            (Phase::Split, Event::Rejected(e)) => self.failed(e),
            (Phase::Encrypt, Event::Done) => self.moved(Phase::Submit),
            (Phase::Encrypt, Event::Rejected(e)) => self.failed(e),
            (Phase::Submit, Event::Answered { status }) => match classify(status) {
                Ok(()) => self.moved(Phase::Accepted),
                Err(FlError::VersionConflict) => if self.conflicts < max_retries {
                    Round {
                        phase: Phase::Refetch,
                        model_version: self.model_version,
                        conflicts: self.conflicts + 1,
                    }
                } else {
                    self.failed(FlError::VersionConflict)
                },
                Err(e) => self.failed(e),
            },
            (Phase::Submit, Event::Unreachable) => self.failed(FlError::NetworkUnreachable),
            (Phase::Refetch, Event::Fetched { model_version }) => Round {
                phase: Phase::Submit,
                model_version,
                conflicts: self.conflicts,
            },
            (Phase::Refetch, Event::Unreachable) => self.failed(FlError::NetworkUnreachable),
            _ => self,
        }
    }

    fn moved(self, phase: Phase) -> (next: Round)
        ensures
            next == self.at(phase),
    {
        Round { phase, model_version: self.model_version, conflicts: self.conflicts }
    }

    fn failed(self, error: FlError) -> (next: Round)
        ensures
            next == self.at(Phase::Failed(error)),
    {
        Round { phase: Phase::Failed(error), model_version: self.model_version, conflicts: self.conflicts }
    }
}

/// Retries are bounded: a round never counts more conflicts than it may
/// retry, every event that changes the round uses up some of its budget, and
/// a round that is over stays as it is. So a round is over after at most
/// `3 * max_retries + 7` events that change it.
pub proof fn lemma_round_is_bounded(round: Round, event: Event, max_retries: usize)
    requires
        round.conflicts <= max_retries,
    ensures
        round.step(event, max_retries).conflicts <= max_retries,
        0 <= round.step(event, max_retries).budget(max_retries),
        round.step(event, max_retries) != round ==> round.step(event, max_retries).budget(
            max_retries,
        ) < round.budget(max_retries),
        round.is_over() ==> round.step(event, max_retries) == round,
        round.budget(max_retries) == 0 <==> round.is_over(),
{
}

} // verus!
