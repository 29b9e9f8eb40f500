//! A best-first state-space search engine.
//!
//! A caller describes a problem by its states, the actions that can be taken
//! in a state, what each action leads to and costs, an estimate of the cost
//! that remains, and a test for the states it is looking for. The engine keeps
//! the generated nodes in a frontier, withdraws them in the order of the
//! chosen policy, and answers with the actions that lead to a suitable state.
//!
//! `problem` holds what a caller implements and the vocabulary in which the
//! contracts speak of it; `node`, `backend` and `frontier` the data
//! structures; `explorer` and `tree` the graph search and the tree search;
//! `model` what the searches do, as functions on plain values; and `optimal`
//! the proof that the cost-ordered and the breadth-first search find a
//! cheapest plan. `priority` and `clock` hold the calls into code that is
//! not verified here.
pub mod problem;
pub mod node;
pub mod priority;
pub mod backend;
pub mod model;
pub mod frontier;
pub mod clock;
pub mod explorer;
pub mod tree;
pub mod optimal;
