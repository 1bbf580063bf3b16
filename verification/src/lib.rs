//! Secure round-based aggregation for federated learning.
//!
//! Clients sanitize a weight vector, split it into threshold shares, encrypt
//! every share set and submit the result; the server buffers the submissions
//! of one round, reconstructs each contribution and publishes the
//! sample-weighted average under a new model version.
//!
//! All numbers are integers. A weight is held in fixed point, as a multiple
//! of one millionth, and the sharing scheme works on integer polynomials, so
//! that reconstruction is exact and not merely close.
//!
//! - [`polynomial`], [`interpolation`] and [`sharing`] hold the mathematics
//!   of the sharing scheme and the proof that a quorum of shares gives the
//!   secret back;
//! - [`share_text`] is the text form of a share set;
//! - [`secure_dp_utils`] has the noise mechanism, the split and its inverse,
//!   and the encryption of share sets;
//! - [`averaging`] is federated averaging;
//! - [`server`] is the state machine of the aggregation server;
//! - [`client`] seals a client's update and leads its round.

pub mod averaging;
pub mod client;
pub mod error;
pub mod interpolation;
pub mod polynomial;
pub mod secure_dp_utils;
pub mod server;
pub mod share_text;
pub mod sharing;
