//! An interactive pairwise image-rating library: an Elo-style updater with a
//! time-decay penalty, a play-count-balancing candidate selector, a merge of
//! persisted ratings with freshly discovered images, a plain-text table
//! format, and the session state machine that ties them together.  Ratings
//! are fixed-point numbers counted in thousandths of an Elo point.

pub mod codec;
pub mod elo;
pub mod rng;
pub mod selector;
pub mod session;
pub mod store;
