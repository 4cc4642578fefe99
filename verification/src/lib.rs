//! A constraint-propagation engine for the classic 9x9 digit-placement
//! puzzle.  Every cell tracks the set of digits it may still hold; the two
//! elimination strategies narrow those sets one pass at a time, and every
//! transformation is specified and proved against a mathematical model of
//! cells, boards and the fixed row/column/box topology.

pub mod board;
pub mod cell;
pub mod naked_pair;
pub mod remove_solved;
pub mod strategy;
pub mod topology;
