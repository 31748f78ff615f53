//! An iterator that is processed either in parallel (with rayon) or serially, with one API
//! either way. A `CondIterator` holds its items and a flag for the mode; every operation
//! states its result over the sequence of items, the same in both modes.
pub mod side;
pub mod model;
pub mod par;
pub mod serial;
pub mod lemmas;
pub mod cond;
pub mod consume;
pub mod numeric;
pub mod compare;
pub mod laws;
pub mod pieces;
