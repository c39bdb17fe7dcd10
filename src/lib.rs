//! Streams one structured value from a pull-based source into a push-based
//! sink, one signal at a time, without holding the whole value in memory.
//!
//! A source reports its value as a stream of signals (`Event`); a `Session`
//! turns each signal into the one call (`Call`) that the sink must receive,
//! keeping track of the open sequences and keyed collections. A `Transcoder`
//! hands one source to the algorithm exactly once, and keeps the source's
//! error while it travels back through the sink, so that `Error` can say which
//! side failed.
pub mod laws;
pub mod session;
pub mod shape;
pub mod transcoder;

pub use session::{Frame, Session};
pub use shape::{Call, Event, Fault, Shape, Side, WRAPPER_NAME};
pub use transcoder::{Error, Transcoder};
