//! An ordered map and an ordered set backed by a balanced binary search
//! tree, with every operation verified against a model of the container as
//! the sequence of its entries in ascending key order.
//!
//! - `order`: the three-way comparison a tree is sorted by.
//! - `text`: the order of strings.
//! - `model`: the sorted sequence of entries and where a key stands in it.
//! - `balance`: one level per node and the two rotations that restore the
//!   level rules after an insertion or a removal.
//! - `node`: nodes, the walks over a tree, and the changes at a position;
//!   `node::builder`, `node::entry` and `node::iter` hold what a walk's
//!   result is turned into, the entries, and iteration from both ends.
//! - `map` and `set`: the containers.
//! - `lexical`: comparing two containers entry by entry.
//! - `laws`: what holds of every container, stated over the model.

pub mod balance;
pub mod laws;
pub mod lexical;
pub mod map;
pub mod model;
pub mod node;
pub mod order;
pub mod set;
pub mod text;
