use chat::session::{greeting, handshake, inbound};
use chat::{AgentId, Frame, FrameError, Message};

#[test]
fn a_session_opens_with_its_own_hello() {
    let me = AgentId::new("me+1");
    assert_eq!(greeting(&me), Frame::Hello(me.clone()));
}

#[test]
fn a_hello_first_makes_the_session_ready() {
    let them = AgentId::new("them+2");
    assert_eq!(handshake(Some(Ok(Frame::Hello(them.clone())))), Ok(them));
}

#[test]
fn anything_else_first_is_refused_with_one_error_frame() {
    let cases = vec![
        (Some(Ok(Frame::Goodbye)), "Expected Hello, got Goodbye"),
        (Some(Ok(Frame::Message(Message::Broadcast("x".to_string())))), "Expected Hello, got a message"),
        (Some(Ok(Frame::Error("bad".to_string()))), "Expected Hello, got an error"),
        (Some(Err(FrameError::Codec("junk".to_string()))), "Expected Hello, got an unreadable frame"),
        (None, "Expected Hello, got the end of the stream"),
    ];
    for (first, text) in cases {
        assert_eq!(handshake(first), Err(Frame::Error(text.to_string())));
    }
}

#[test]
fn a_ready_session_forwards_messages_and_closes_on_anything_else() {
    let m = Message::Broadcast("hi".to_string());
    assert_eq!(inbound(Some(Ok(Frame::Message(m.clone())))), Some(m));
    assert_eq!(inbound(Some(Ok(Frame::Hello(AgentId::new("again"))))), None);
    assert_eq!(inbound(Some(Ok(Frame::Error("oops".to_string())))), None);
    assert_eq!(inbound(Some(Ok(Frame::Goodbye))), None);
    assert_eq!(inbound(Some(Err(FrameError::Codec("junk".to_string())))), None);
    assert_eq!(inbound(None), None);
}
