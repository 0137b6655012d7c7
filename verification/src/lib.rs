//! A single-layer linear perceptron in exact fixed-point arithmetic.
//!
//! A [`Net`] owns an ordered sequence of [`Node`]s, each an input paired with
//! a trainable weight, together with a target and a learning rate.
//! [`Net::run`] repeats trials: a trial evaluates the weighted sum of the
//! inputs and ends the run if the sum has reached or passed the target;
//! otherwise the net learns, which raises the weight of every strictly
//! positive input by the learning rate, and the next trial follows.
//!
//! Every scalar is an integer: a count of a unit that the caller chooses,
//! such as tenths or thousandths. Inputs, weights and the learning rate are
//! `i32`. A product of two of them fits `i64`, the type of the target, and
//! the weighted sum of any number of nodes fits `i128`, so evaluation never
//! overflows. The one machine limit that a caller meets is the range of a
//! weight: [`Net::has_room_for`] tests it.
//!
//! The contracts are stated over [`NetView`], the net over unbounded
//! integers; [`theorems`] holds what follows for every net.

pub mod lemmas;
pub mod model;
pub mod net;
pub mod node;
pub mod theorems;

pub use model::{NetView, NodeView};
pub use net::{Net, Trial};
pub use node::Node;
