//! A genetic-algorithm optimiser that drafts a fifteen-player squad from a
//! pool, maximising predicted points within a budget, position caps and a
//! per-team cap.
//!
//! * [`model`]: players, squads, the configuration, and what makes a squad
//!   valid.
//! * [`validate`]: the validator.
//! * [`fitness`]: the score by which squads are ranked during a run.
//! * [`report`]: bench flags and the headline score of a finished squad.
//! * [`random`]: the reproducible source of random draws.
//! * [`generate`], [`crossover`], [`mutate`], [`select`]: the operators.
//! * [`evolve`]: one generation, and a whole run.
//!
//! Prices and scores are integers in the smallest unit of the pool, and
//! fitness is counted in quarters of a score unit, so nothing is rounded.
//! A run is a function of the pool, the configuration and the seed; the
//! contracts say which function, and that every squad handed out is valid.

pub mod model;
pub mod random;
pub mod validate;
pub mod fitness;
pub mod report;
pub mod generate;
pub mod crossover;
pub mod mutate;
pub mod select;
pub mod evolve;
