//! EigenTrust global trust computation over exact fixed-point arithmetic.
//!
//! Raw satisfaction and dissatisfaction counts become a row-stochastic local
//! trust matrix (`local_trust`), whose transpose is then applied repeatedly to
//! a trust vector until successive vectors agree (`propagate`, using the
//! stopping rule of `convergence`).
mod sums;
pub mod local_trust;
pub mod convergence;
pub mod propagate;
pub mod simulation;

pub use local_trust::{TrustMatrix, TrustError};
pub use simulation::{generate_sim_data, gen_random_downloads_data, downloads_from_counts};

