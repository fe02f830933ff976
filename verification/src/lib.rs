//! A mediator between a parent process and a distributed hash table.
//!
//! The parent speaks a framed binary protocol over a byte stream: first one
//! configuration message, then requests; responses travel the other way.  This
//! library holds everything about that conversation that can be decided on
//! plain values:
//!
//! - [`frame`]: the frames that the streams are cut into;
//! - [`channel`]: the two ends of the stream, message by message;
//! - [`scale`] and [`message`]: the encoding of the three messages;
//! - [`startup`]: what a configuration must satisfy to be used;
//! - [`model`] and [`history`]: the mediator as a state machine, and what
//!   holds of every run of it;
//! - [`mediator`]: the executable mediator, proved to follow the model.
//!
//! The network and the byte streams themselves stay with the caller.
pub mod channel;
pub mod frame;
pub mod history;
pub mod mediator;
pub mod message;
pub mod model;
pub mod scale;
pub mod startup;
