//! The aggregation server: the state of a round and the operations that
//! read and advance it.
//!
//! The state is one value that its operations change as a whole, so the
//! model version and the buffer of pending contributions cannot be seen out
//! of step. A transport holds the state behind a lock and calls
//! [`get_model`] and [`update_model`] for its two requests.

use vstd::prelude::*;
use crate::averaging::{
    average, averageable, coherent, fed_avg, pendings, total_samples, Contribution, Pending,
    MAX_TOTAL_SAMPLES,
};
use crate::error::FlError;
use crate::secure_dp_utils::{fernet_key_accepted, open_update, sealed_contribution, token_texts};

verus! {

/// A weight update as a client submits it.
#[derive(Debug, PartialEq, Eq)]
pub struct WeightsUpdate {
    /// One token for each share set of the client's weights.
    pub model_weights: Vec<String>,
    /// The number of samples the weights were trained on.
    pub num_samples: usize,
    /// The training loss, in fixed point.
    pub loss: i64,
    /// The version of the global model that the client trained on.
    pub model_version: usize,
}

/// What the server hands out of its model.
#[derive(Debug, PartialEq, Eq)]
pub struct ModelSnapshot {
    /// The global weights, in fixed point.
    pub model_state_dict: Vec<i64>,
    /// The version the weights belong to.
    pub model_version: usize,
}

/// What an accepted update did.
#[derive(Debug, PartialEq, Eq)]
pub enum UpdateOutcome {
    /// The update was buffered; the round waits for more.
    Waiting { received: usize, aggregation_goal: usize },
    /// The update completed the round: the buffer was averaged into a new
    /// global model.
    Aggregated { model_version: usize, model_weights: Vec<i64> },
}

/// The state of the aggregation server.
pub struct AppState {
    aggregation_goal: usize,
    current_model_version: usize,
    client_updates: Vec<Contribution>,
    global_model: Vec<i64>,
    buffered_samples: u64,
}

/// The mathematical content of the server state.
pub struct AppStateView {
    pub aggregation_goal: nat,
    pub current_model_version: nat,
    pub client_updates: Seq<Pending>,
    pub global_model: Seq<i64>,
}

/// The round is collecting: the goal is positive, the buffer is below it,
/// and what is buffered can be averaged together.
pub open spec fn collecting(state: AppStateView) -> bool {
    &&& state.aggregation_goal >= 1
    &&& state.client_updates.len() < state.aggregation_goal
    &&& coherent(state.client_updates)
}

/// A contribution can join the buffer: it reports a sample, keeps the
/// samples in total within the limit and has as many weights as the
/// contributions already buffered.
pub open spec fn acceptable(state: AppStateView, weights: Seq<i64>, num_samples: nat) -> bool {
    &&& num_samples >= 1
    &&& total_samples(state.client_updates) + num_samples <= MAX_TOTAL_SAMPLES
    &&& state.client_updates.len() > 0 ==> weights.len() == state.client_updates[0].weights.len()
}

/// The update is taken: it was trained on the current version and can join
/// the buffer.
pub open spec fn taken(
    state: AppStateView,
    model_version: nat,
    weights: Seq<i64>,
    num_samples: nat,
) -> bool {
    model_version == state.current_model_version && acceptable(state, weights, num_samples)
}

/// The buffer with the contribution appended.
pub open spec fn extended(state: AppStateView, weights: Seq<i64>, num_samples: nat) -> Seq<Pending> {
    state.client_updates.push(Pending { weights, num_samples })
}

/// The update completes the round.
pub open spec fn completes(state: AppStateView, weights: Seq<i64>, num_samples: nat) -> bool {
    extended(state, weights, num_samples).len() >= state.aggregation_goal
}

/// The state after an update was submitted. An update that is not taken
/// leaves the state as it is. One that is taken joins the buffer; if that
/// reaches the goal, the buffer is averaged into the global model, the
/// version advances and the buffer is emptied, all at once.
pub open spec fn after_submission(
    state: AppStateView,
    model_version: nat,
    weights: Seq<i64>,
    num_samples: nat,
) -> AppStateView {
    if !taken(state, model_version, weights, num_samples) {
        state
    } else if completes(state, weights, num_samples) {
        AppStateView {
            aggregation_goal: state.aggregation_goal,
            current_model_version: state.current_model_version + 1,
            client_updates: Seq::empty(),
            global_model: average(extended(state, weights, num_samples)),
        }
    } else {
        AppStateView {
            aggregation_goal: state.aggregation_goal,
            current_model_version: state.current_model_version,
            client_updates: extended(state, weights, num_samples),
            global_model: state.global_model,
        }
    }
}

/// The answer to a submitted update: a version conflict where the versions
/// differ, else a malformed update where the contribution cannot join the
/// buffer, else what the update did.
pub open spec fn answers(
    state: AppStateView,
    model_version: nat,
    weights: Seq<i64>,
    num_samples: nat,
    r: Result<UpdateOutcome, FlError>,
) -> bool {
    match r {
        Err(e) => if model_version != state.current_model_version {
            e == FlError::VersionConflict
        } else {
            e == FlError::MalformedUpdate && !acceptable(state, weights, num_samples)
        },
        Ok(UpdateOutcome::Waiting { received, aggregation_goal }) => {
            &&& taken(state, model_version, weights, num_samples)
            &&& !completes(state, weights, num_samples)
            &&& received == state.client_updates.len() + 1
            &&& aggregation_goal == state.aggregation_goal
        },
        Ok(UpdateOutcome::Aggregated { model_version: new_version, model_weights }) => {
            &&& taken(state, model_version, weights, num_samples)
            &&& completes(state, weights, num_samples)
            &&& new_version == state.current_model_version + 1
            &&& model_weights@ == average(extended(state, weights, num_samples))
        },
    }
}

/// Appending an acceptable contribution keeps the buffer coherent.
pub proof fn lemma_extended_coherent(state: AppStateView, weights: Seq<i64>, num_samples: nat)
    requires
        coherent(state.client_updates),
        acceptable(state, weights, num_samples),
    ensures
        averageable(extended(state, weights, num_samples)),
        total_samples(extended(state, weights, num_samples)) == total_samples(state.client_updates)
            + num_samples,
{
    let buffer = state.client_updates;
    let longer = extended(state, weights, num_samples);
    assert(longer.drop_last() =~= buffer);
    assert forall|c: int| 0 <= c < longer.len() implies (#[trigger] longer[c]).num_samples >= 1
        && longer[c].weights.len() == longer[0].weights.len() by {
        if c < buffer.len() {
            assert(longer[c] == buffer[c]);
            assert(longer[0] == buffer[0]);
        }
    }
}

/// The buffer grows by exactly one with every update that is taken and
/// does not complete the round, and by none otherwise; the round completes
/// exactly when the buffer reaches the goal, and then the version advances
/// by one and the buffer is empty.
pub proof fn lemma_buffer_and_goal(
    state: AppStateView,
    model_version: nat,
    weights: Seq<i64>,
    num_samples: nat,
)
    requires
        collecting(state),
    ensures
        collecting(after_submission(state, model_version, weights, num_samples)),
        taken(state, model_version, weights, num_samples) ==> {
            let next = after_submission(state, model_version, weights, num_samples);
            if state.client_updates.len() + 1 == state.aggregation_goal {
                &&& next.client_updates.len() == 0
                &&& next.current_model_version == state.current_model_version + 1
            } else {
                &&& next.client_updates.len() == state.client_updates.len() + 1
                &&& next.current_model_version == state.current_model_version
                &&& next.global_model == state.global_model
            }
        },
        !taken(state, model_version, weights, num_samples) ==> after_submission(
            state,
            model_version,
            weights,
            num_samples,
        ) == state,
{
    if taken(state, model_version, weights, num_samples) {
        lemma_extended_coherent(state, weights, num_samples);
        assert(total_samples(Seq::<Pending>::empty()) == 0);
    }
}

/// An update for another version than the current one changes nothing.
pub proof fn lemma_conflict_changes_nothing(
    state: AppStateView,
    model_version: nat,
    weights: Seq<i64>,
    num_samples: nat,
    r: Result<UpdateOutcome, FlError>,
)
    requires
        model_version != state.current_model_version,
        answers(state, model_version, weights, num_samples, r),
    ensures
        r == Err::<UpdateOutcome, FlError>(FlError::VersionConflict),
        after_submission(state, model_version, weights, num_samples) == state,
{
}

impl View for AppState {
    type V = AppStateView;

    closed spec fn view(&self) -> AppStateView {
        AppStateView {
            aggregation_goal: self.aggregation_goal as nat,
            current_model_version: self.current_model_version as nat,
            client_updates: pendings(self.client_updates@),
            global_model: self.global_model@,
        }
    }
}

fn copy_weights(weights: &Vec<i64>) -> (copy: Vec<i64>)
    ensures
        copy@ == weights@,
{
    let mut copy: Vec<i64> = Vec::new();
    let mut i: usize = 0;
    while i < weights.len()
        invariant
            i <= weights.len(),
            copy@ == weights@.take(i as int),
        decreases weights.len() - i,
    {
        copy.push(weights[i]);
        assert(copy@ =~= weights@.take(i + 1));
        i += 1;
    }
    assert(weights@.take(weights.len() as int) =~= weights@);
    copy
}

impl AppState {
    /// The state is well formed: a round is collecting, and the count of
    /// buffered samples is kept up.
    pub closed spec fn wf(&self) -> bool {
        &&& collecting(self@)
        &&& self.buffered_samples == total_samples(pendings(self.client_updates@))
    }

    /// In a well-formed state a round is collecting.
    pub proof fn lemma_wf_collecting(&self)
        requires
            self.wf(),
        ensures
            collecting(self@),
    {
    }

    /// A server at version 0 with an empty buffer.
    pub fn new(aggregation_goal: usize, global_model: Vec<i64>) -> (state: AppState)
        requires
            aggregation_goal >= 1,
        ensures
            state.wf(),
            state@ == (AppStateView {
                aggregation_goal: aggregation_goal as nat,
                current_model_version: 0,
                client_updates: Seq::empty(),
                global_model: global_model@,
            }),
    {
        let state = AppState {
            aggregation_goal,
            current_model_version: 0,
            client_updates: Vec::new(),
            global_model,
            buffered_samples: 0,
        };
        assert(pendings(state.client_updates@) =~= Seq::<Pending>::empty());
        state
    }

    /// The server that aggregates every single update: goal 1, version 0,
    /// no weights yet.
    pub fn default() -> (state: AppState)
        ensures
            state.wf(),
            state@ == (AppStateView {
                aggregation_goal: 1,
                current_model_version: 0,
                client_updates: Seq::empty(),
                global_model: Seq::empty(),
            }),
    {
        AppState::new(1, Vec::new())
    }

    /// The number of updates that complete a round.
    pub fn aggregation_goal(&self) -> (goal: usize)
        ensures
            goal == self@.aggregation_goal,
    {
        self.aggregation_goal
    }

    /// The version of the global model.
    pub fn current_model_version(&self) -> (version: usize)
        ensures
            version == self@.current_model_version,
    {
        self.current_model_version
    }

    /// The number of updates waiting in the buffer.
    pub fn pending_updates(&self) -> (count: usize)
        ensures
            count == self@.client_updates.len(),
    {
        self.client_updates.len()
    }

    /// Whether the version can still advance.
    pub fn can_advance(&self) -> (yes: bool)
        ensures
            yes == (self@.current_model_version < usize::MAX),
    {
        self.current_model_version < usize::MAX
    }

    /// Takes a decoded contribution into the round.
    ///
    /// A contribution trained on another version is a version conflict; one
    /// that cannot join the buffer is malformed; neither changes the state.
    /// Any other joins the buffer and, where that reaches the goal, completes
    /// the round.
    pub fn submit_contribution(
        &mut self,
        model_version: usize,
        weights: Vec<i64>,
        num_samples: usize,
    ) -> (r: Result<UpdateOutcome, FlError>)
        requires
            old(self).wf(),
            old(self)@.current_model_version < usize::MAX,
        ensures
            final(self).wf(),
            final(self)@ == after_submission(
                old(self)@,
                model_version as nat,
                weights@,
                num_samples as nat,
            ),
            answers(old(self)@, model_version as nat, weights@, num_samples as nat, r),
    {
        let ghost before = self@;
        let ghost buffer = pendings(self.client_updates@);
        if model_version != self.current_model_version {
            return Err(FlError::VersionConflict);
        }
        if num_samples == 0 || num_samples as u64 > MAX_TOTAL_SAMPLES - self.buffered_samples {
            return Err(FlError::MalformedUpdate);
        }
        if self.client_updates.len() > 0 && self.client_updates[0].weights.len() != weights.len() {
            assert(buffer[0] == self.client_updates[0]@);
            return Err(FlError::MalformedUpdate);
        }
        proof {
            if buffer.len() > 0 {
                assert(buffer[0] == self.client_updates[0]@);
            }
            lemma_extended_coherent(before, weights@, num_samples as nat);
        }
        let ghost longer = extended(before, weights@, num_samples as nat);
        self.buffered_samples = self.buffered_samples + num_samples as u64;
        self.client_updates.push(Contribution { weights, num_samples });
        assert(pendings(self.client_updates@) =~= longer);
        if self.client_updates.len() >= self.aggregation_goal {
            let averaged = fed_avg(&self.client_updates).unwrap();
            let payload = copy_weights(&averaged);
            self.global_model = averaged;
            self.client_updates = Vec::new();
            self.buffered_samples = 0;
            self.current_model_version = self.current_model_version + 1;
            proof {
                assert(pendings(self.client_updates@) =~= Seq::<Pending>::empty());
                assert(total_samples(Seq::<Pending>::empty()) == 0);
            }
            Ok(UpdateOutcome::Aggregated { model_version: self.current_model_version, model_weights: payload })
        } else {
            Ok(
                UpdateOutcome::Waiting {
                    received: self.client_updates.len(),
                    aggregation_goal: self.aggregation_goal,
                },
            )
        }
    }
}

/// Hands out a consistent pair of global weights and version.
pub fn get_model(state: &AppState) -> (snapshot: ModelSnapshot)
    ensures
        snapshot.model_state_dict@ == state@.global_model,
        snapshot.model_version == state@.current_model_version,
{
    ModelSnapshot {
        model_state_dict: copy_weights(&state.global_model),
        model_version: state.current_model_version,
    }
}

/// Takes a client's update into the round.
///
/// An update trained on another version than the current one is answered
/// with a version conflict before anything of it is opened. Otherwise its
/// tokens are opened with the client's key; an update without tokens, one
/// under a malformed key, one that does not open into a contribution, and
/// one whose contribution cannot join the buffer are malformed. Neither changes the state, and a malformed update does not
/// count towards the goal. Any other update is taken as
/// `submit_contribution` takes its contribution.
pub fn update_model(state: &mut AppState, update: &WeightsUpdate, key: &str) -> (r: Result<
    UpdateOutcome,
    FlError,
>)
    requires
        old(state).wf(),
        old(state)@.current_model_version < usize::MAX,
    ensures
        final(state).wf(),
        update.model_version == old(state)@.current_model_version && (update.model_weights.len()
            == 0 || !fernet_key_accepted(key@)) ==> r == Err::<UpdateOutcome, FlError>(
            FlError::MalformedUpdate,
        ),
        match r {
            Err(e) => {
                &&& final(state)@ == old(state)@
                &&& if update.model_version != old(state)@.current_model_version {
                    e == FlError::VersionConflict
                } else {
                    e == FlError::MalformedUpdate
                }
            },
            Ok(_) => {
                &&& sealed_contribution(key@, token_texts(update.model_weights@)) matches Some(
                    weights,
                )
                &&& final(state)@ == after_submission(
                    old(state)@,
                    update.model_version as nat,
                    weights,
                    update.num_samples as nat,
                )
                &&& answers(
                    old(state)@,
                    update.model_version as nat,
                    weights,
                    update.num_samples as nat,
                    r,
                )
            },
        },
{
    if update.model_version != state.current_model_version() {
        return Err(FlError::VersionConflict);
    }
    let weights = match open_update(&update.model_weights, key) {
        Ok(weights) => weights,
        Err(_) => {
            return Err(FlError::MalformedUpdate);
        },
    };
    state.submit_contribution(update.model_version, weights, update.num_samples)
}

} // verus!
