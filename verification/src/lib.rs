//! Approximate matching of a query against the keys of a static
//! dictionary.
//!
//! A weighted nondeterministic matcher, by edit distance or by a weighted
//! transducer, is turned into a deterministic automaton over bytes by a
//! beam search: the state of that automaton is a bounded frontier of
//! matcher states with the least costs found for them. The automaton then
//! drives a depth-first walk of the dictionary, which leaves out every
//! subtree that can no longer match.
//!
//! Costs are whole numbers. A cost that does not fit 64 bits counts as
//! infinite and is never admitted into a frontier.
pub mod adapters;
pub mod agenda;
pub mod beam;
pub mod ext;
pub mod frontier;
pub mod helpers;
pub mod hfst;
pub mod levenshtein;
pub mod roundtrip;
pub mod utf8;
