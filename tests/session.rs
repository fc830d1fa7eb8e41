use chat_client::{show_reply, Action, Event, Reply, Session, SessionError};

fn s(x: &str) -> String {
    x.to_string()
}

#[test]
fn join_line_sends_join_request() {
    let mut ses = Session::new();
    assert_eq!(
        ses.step(Event::Command(s("join music"))),
        Action::Send(s("{\"Join\":{\"group_name\":\"music\"}}\n"))
    );
    assert!(!ses.is_done());
}

#[test]
fn post_line_sends_post_request() {
    let mut ses = Session::new();
    assert_eq!(
        ses.step(Event::Command(s("post music Hello, World!"))),
        Action::Send(s("{\"Post\":{\"group_name\":\"music\",\"message\":\"Hello, World!\"}}\n"))
    );
}

#[test]
fn post_without_message_sends_nothing_and_continues() {
    let mut ses = Session::new();
    assert_eq!(ses.step(Event::Command(s("post music"))), Action::Skip);
    assert!(!ses.is_done());
    assert_eq!(
        ses.step(Event::Command(s("join music"))),
        Action::Send(s("{\"Join\":{\"group_name\":\"music\"}}\n"))
    );
}

#[test]
fn inbound_message_and_error_are_shown() {
    let mut ses = Session::new();
    assert_eq!(
        ses.step(Event::Inbound(s("{\"Message\":{\"group_name\":\"music\",\"message\":\"hi\"}}"))),
        Action::Show(s("message posted to music: hi"))
    );
    assert_eq!(
        ses.step(Event::Inbound(s("{\"Error\":\"no such group\"}"))),
        Action::Show(s("error from server: no such group"))
    );
    assert!(!ses.is_done());
}

#[test]
fn end_of_input_finishes_successfully() {
    let mut ses = Session::new();
    assert_eq!(ses.step(Event::CommandsEnd), Action::Finish);
    assert!(ses.is_done());
    assert_eq!(
        ses.step(Event::Inbound(s("{\"Error\":\"late\"}"))),
        Action::Skip
    );
}

#[test]
fn peer_close_finishes_successfully() {
    let mut ses = Session::new();
    assert_eq!(ses.step(Event::InboundEnd), Action::Finish);
    assert_eq!(ses.step(Event::Command(s("join music"))), Action::Skip);
}

#[test]
fn faults_fail_the_session() {
    let mut a = Session::new();
    assert_eq!(a.step(Event::CommandsFault(s("eof"))), Action::Fail(SessionError::Input(s("eof"))));
    let mut b = Session::new();
    assert_eq!(b.step(Event::SendFault(s("reset"))), Action::Fail(SessionError::Send(s("reset"))));
    let mut c = Session::new();
    assert_eq!(c.step(Event::InboundFault(s("io"))), Action::Fail(SessionError::Receive(s("io"))));
    assert_eq!(c.step(Event::CommandsEnd), Action::Skip);
}

#[test]
fn undecodable_line_fails_the_session() {
    let mut ses = Session::new();
    assert_eq!(
        ses.step(Event::Inbound(s("not json"))),
        Action::Fail(SessionError::Decode(s("not json")))
    );
    assert!(ses.is_done());
}

#[test]
fn shown_texts() {
    let m = Reply::Message { group_name: s("g"), message: s("a b") };
    assert_eq!(show_reply(&m), "message posted to g: a b");
    assert_eq!(show_reply(&Reply::Error(s("x"))), "error from server: x");
}
