//! Homophonic-substitution cipher solver.
//!
//! * [`model::NgramModel`] — n-gram log-probability tables (order 2–5).
//! * [`scorer::Scorer`] — incremental rescoring of only the windows a move touches.
//! * [`score_spec`] — the ciphertext log-likelihood the scorer keeps, as mathematics.
//! * [`anneal`] — hill climbing, calibration and one annealing run.
//! * [`cipher`] — homophonic keys, encryption and ciphertext parsing.
//! * [`rng::Rng`] — a small seeded generator.
//! * [`plan`] — the integer plan of a unicity measurement.
pub mod anneal;
pub mod cipher;
pub mod model;
pub mod plan;
pub mod rng;
pub mod score_spec;
pub mod scorer;

pub use anneal::{anneal, auto_iterations, hill_climb, Solution};
pub use cipher::{decrypt_with, matching_positions, Ciphertext, HomophonicKey};
pub use model::{letters_from_text, letters_to_string, ModelError, NgramModel};
pub use rng::Rng;
pub use scorer::{LnFactorials, Scorer};
