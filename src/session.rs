//! The decisions of a duplex session. Two directions run side by side: the
//! outbound one reads typed lines and sends requests, the inbound one reads
//! reply lines and shows them. Whichever finishes first ends the session with
//! its outcome; whatever the other direction brings afterwards is dropped.
use vstd::prelude::*;
use crate::codec::{decode_reply, decode_reply_spec, encode_request, encode_request_spec};
use crate::command::{parse_command, parse_spec};
use crate::message::{Reply, ReplyView};

verus! {

/// Why a session failed.
#[derive(Clone, Debug, PartialEq, Eq)]
pub enum SessionError {
    /// Reading the local input failed.
    Input(String),
    /// Writing to the connection failed.
    Send(String),
    /// Reading from the connection failed.
    Receive(String),
    /// A line from the connection carried no reply; the line is kept.
    Decode(String),
}

/// What happened on one of the two directions.
#[derive(Clone, Debug, PartialEq, Eq)]
pub enum Event {
    /// A line was typed.
    Command(String),
    /// The local input ended.
    CommandsEnd,
    /// Reading the local input failed.
    CommandsFault(String),
    /// Writing or flushing a request failed.
    SendFault(String),
    /// A line arrived from the connection (without its terminator).
    Inbound(String),
    /// The connection was closed by the peer.
    InboundEnd,
    /// Reading from the connection failed.
    InboundFault(String),
}

/// What the session asks to be done next.
#[derive(Clone, Debug, PartialEq, Eq)]
pub enum Action {
    /// Write this text to the connection, then flush it.
    Send(String),
    /// Show this text to the user.
    Show(String),
    /// Nothing to do.
    Skip,
    /// The session is over and succeeded.
    Finish,
    /// The session is over and failed.
    Fail(SessionError),
}

pub enum ErrorView {
    Input(Seq<char>),
    Send(Seq<char>),
    Receive(Seq<char>),
    Decode(Seq<char>),
}

pub enum EventView {
    Command(Seq<char>),
    CommandsEnd,
    CommandsFault(Seq<char>),
    SendFault(Seq<char>),
    Inbound(Seq<char>),
    InboundEnd,
    InboundFault(Seq<char>),
}

pub enum ActionView {
    Send(Seq<char>),
    Show(Seq<char>),
    Skip,
    Finish,
    Fail(ErrorView),
}

impl View for SessionError {
    type V = ErrorView;

    open spec fn view(&self) -> ErrorView {
        match self {
            SessionError::Input(d) => ErrorView::Input(d@),
            SessionError::Send(d) => ErrorView::Send(d@),
            SessionError::Receive(d) => ErrorView::Receive(d@),
            SessionError::Decode(d) => ErrorView::Decode(d@),
        }
    }
}

impl View for Event {
    type V = EventView;

    open spec fn view(&self) -> EventView {
        match self {
            Event::Command(l) => EventView::Command(l@),
            Event::CommandsEnd => EventView::CommandsEnd,
            Event::CommandsFault(d) => EventView::CommandsFault(d@),
            Event::SendFault(d) => EventView::SendFault(d@),
            Event::Inbound(l) => EventView::Inbound(l@),
            Event::InboundEnd => EventView::InboundEnd,
            Event::InboundFault(d) => EventView::InboundFault(d@),
        }
    }
}

impl View for Action {
    type V = ActionView;

    open spec fn view(&self) -> ActionView {
        match self {
            Action::Send(t) => ActionView::Send(t@),
            Action::Show(t) => ActionView::Show(t@),
            Action::Skip => ActionView::Skip,
            Action::Finish => ActionView::Finish,
            Action::Fail(e) => ActionView::Fail(e@),
        }
    }
}

/// The text shown for a reply.
pub open spec fn show_spec(r: ReplyView) -> Seq<char> {
    match r {
        ReplyView::Message { group_name, message } => "message posted to "@ + group_name + ": "@
            + message,
        ReplyView::Error { text } => "error from server: "@ + text,
    }
}

/// Whether the session is over after `e`, and what is to be done, when it
/// was over (`done`) or not before.
pub open spec fn step_spec(done: bool, e: EventView) -> (bool, ActionView) {
    if done {
        (true, ActionView::Skip)
    } else {
        match e {
            EventView::Command(line) => match parse_spec(line) {
                Some(req) => (false, ActionView::Send(encode_request_spec(req) + seq!['\n'])),
                None => (false, ActionView::Skip),
            },
            EventView::CommandsEnd => (true, ActionView::Finish),
            EventView::CommandsFault(d) => (true, ActionView::Fail(ErrorView::Input(d))),
            EventView::SendFault(d) => (true, ActionView::Fail(ErrorView::Send(d))),
            EventView::Inbound(line) => match decode_reply_spec(line) {
                Some(r) => (false, ActionView::Show(show_spec(r))),
                None => (true, ActionView::Fail(ErrorView::Decode(line))),
            },
            EventView::InboundEnd => (true, ActionView::Finish),
            EventView::InboundFault(d) => (true, ActionView::Fail(ErrorView::Receive(d))),
        }
    }
}

/// The text shown for a reply.
pub fn show_reply(r: &Reply) -> (t: String)
    ensures
        t@ == show_spec(r@),
{
    match r {
        Reply::Message { group_name, message } => {
            let mut t = String::from_str("message posted to ");
            t.append(group_name.as_str());
            t.append(": ");
            t.append(message.as_str());
            t
        },
        Reply::Error(text) => {
            let mut t = String::from_str("error from server: ");
            t.append(text.as_str());
            t
        },
    }
}

/// One client session over one connection.
pub struct Session {
    done: bool,
}

impl View for Session {
    type V = bool;

    /// Whether the session is over.
    closed spec fn view(&self) -> bool {
        self.done
    }
}

impl Session {
    /// A session whose two directions are both running.
    pub fn new() -> (s: Session)
        ensures
            !s@,
    {
        Session { done: false }
    }

    /// Whether one direction has finished, which ends the session.
    pub fn is_done(&self) -> (r: bool)
        ensures
            r == self@,
    {
        self.done
    }

    /// Takes what happened on either direction and says what to do next.
    pub fn step(&mut self, e: Event) -> (a: Action)
        ensures
            (final(self)@, a@) == step_spec(old(self)@, e@),
    {
        if self.done {
            return Action::Skip;
        }
        match e {
            Event::Command(line) => match parse_command(line.as_str()) {
                Some(req) => {
                    let mut out = encode_request(&req);
                    proof {
                        reveal_strlit("\n");
                    }
                    out.append("\n");
                    assert("\n"@ =~= seq!['\n']);
                    Action::Send(out)
                },
                None => Action::Skip,
            },
            Event::CommandsEnd => {
                self.done = true;
                Action::Finish
            },
            Event::CommandsFault(d) => {
                self.done = true;
                Action::Fail(SessionError::Input(d))
            },
            Event::SendFault(d) => {
                self.done = true;
                Action::Fail(SessionError::Send(d))
            },
            Event::Inbound(line) => match decode_reply(line.as_str()) {
                Some(r) => Action::Show(show_reply(&r)),
                None => {
                    self.done = true;
                    Action::Fail(SessionError::Decode(line))
                },
            },
            Event::InboundEnd => {
                self.done = true;
                Action::Finish
            },
            Event::InboundFault(d) => {
                self.done = true;
                Action::Fail(SessionError::Receive(d))
            },
        }
    }
}

/// A rejected line leaves no trace: the session goes on as it was, and the
/// next line is handled as if the rejected one had never been typed.
pub proof fn lemma_rejected_line_leaves_no_trace(done: bool, bad: Seq<char>, next: Seq<char>)
    requires
        parse_spec(bad) is None,
    ensures
        step_spec(done, EventView::Command(bad)) == (done, ActionView::Skip),
        step_spec(step_spec(done, EventView::Command(bad)).0, EventView::Command(next))
            == step_spec(done, EventView::Command(next)),
{
}

/// The first direction to finish ends the session for good: from then on
/// every event, from either direction, is dropped.
pub proof fn lemma_first_to_finish_wins(later: Seq<EventView>)
    ensures
        forall|i: int| 0 <= i < later.len() ==> #[trigger] step_spec(true, later[i]) == (
            true,
            ActionView::Skip,
        ),
{
}

} // verus!
