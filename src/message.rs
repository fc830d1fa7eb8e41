//! The two closed sets of protocol messages and their mathematical views.
use vstd::prelude::*;

verus! {

/// A request sent from the client to the server.
#[derive(Clone, Debug, PartialEq, Eq)]
pub enum Request {
    /// Subscribe to a named group.
    Join { group_name: String },
    /// Publish a message to a named group.
    Post { group_name: String, message: String },
}

/// A reply sent from the server to the client.
#[derive(Clone, Debug, PartialEq, Eq)]
pub enum Reply {
    /// A chat message delivered to a group.
    Message { group_name: String, message: String },
    /// A failure sent back by the server; informational only.
    Error(String),
}

/// What a `Request` holds, as sequences of characters.
pub enum RequestView {
    Join { group_name: Seq<char> },
    Post { group_name: Seq<char>, message: Seq<char> },
}

/// What a `Reply` holds, as sequences of characters.
pub enum ReplyView {
    Message { group_name: Seq<char>, message: Seq<char> },
    Error { text: Seq<char> },
}

impl View for Request {
    type V = RequestView;

    open spec fn view(&self) -> RequestView {
        match self {
            Request::Join { group_name } => RequestView::Join { group_name: group_name@ },
            Request::Post { group_name, message } => RequestView::Post {
                group_name: group_name@,
                message: message@,
            },
        }
    }
}

impl View for Reply {
    type V = ReplyView;

    open spec fn view(&self) -> ReplyView {
        match self {
            Reply::Message { group_name, message } => ReplyView::Message {
                group_name: group_name@,
                message: message@,
            },
            Reply::Error(text) => ReplyView::Error { text: text@ },
        }
    }
}

} // verus!
