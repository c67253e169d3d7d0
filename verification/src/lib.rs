//! Construction of dichotomous identification keys.
//!
//! A dichotomous key is a binary decision tree that identifies one item
//! out of a collection by asking a fixed, ordered sequence of yes/no
//! questions.  Each question is a [`characteristic::Characteristic`]: a
//! named trait with a label for the "yes" answer and a label for the
//! "no" answer.  Each [`plant::Plant`] carries observed values for some
//! of those traits.  [`key::Key::build`] partitions the plants trait by
//! trait into a tree of [`key::Node`]s, and [`key::Key::render`] prints
//! the finished tree as an indented outline.

pub mod characteristic;
pub mod decision;
pub mod error;
pub mod key;
pub mod plant;
pub mod test_data;
