//! Client side of a line-oriented chat protocol: the message model, the
//! command parser, the line codec and the decisions of a duplex session.
pub mod codec;
pub mod command;
pub mod message;
pub mod session;

pub use codec::{decode_reply, decode_request, encode_reply, encode_request};
pub use command::parse_command;
pub use message::{Reply, Request};
pub use session::{show_reply, Action, Event, Session, SessionError};
