//! A CNF satisfiability engine: clause evaluation, a level-partitioned trail,
//! activity-guided decisions, conflict analysis with clause learning and
//! non-chronological backjumping, and learnt-clause database maintenance.
pub mod literal;
pub mod clause;
pub mod assignment;
pub mod trail;
pub mod activity;
pub mod maintenance;
pub mod analysis;
pub mod solver_state;
pub mod engine;
pub mod dimacs;
