use practicas::client::{
    chat_request, classify_incoming, classify_reply, registration_outcome, registration_request,
    Incoming, Registration, Request, ServerReply,
};

#[test]
fn replies_are_trimmed_and_classified() {
    assert_eq!(
        classify_reply("  .info Grupo rust creado \n"),
        ServerReply::Info("Grupo rust creado".to_string())
    );
    assert_eq!(classify_reply(".infox"), ServerReply::Unknown(".infox".to_string()));
    assert_eq!(classify_reply(" .info"), ServerReply::Unknown(".info".to_string()));
    assert_eq!(classify_reply("otra cosa\n"), ServerReply::Unknown("otra cosa".to_string()));
}

#[test]
fn incoming_messages() {
    assert_eq!(
        classify_incoming(b".info Has salido del grupo"),
        Incoming::Info("Has salido del grupo".to_string())
    );
    assert_eq!(classify_incoming(b"ana: hola"), Incoming::Plain("ana: hola".to_string()));
    assert_eq!(classify_incoming(b" .info x"), Incoming::Plain(" .info x".to_string()));
    assert_eq!(classify_incoming(&[b'a', 0xff]), Incoming::Plain("a\u{fffd}".to_string()));
}

#[test]
fn registration_lines() {
    assert_eq!(registration_request("  .newuser ana \n"), Some(".newuser ana\n".to_string()));
    assert_eq!(registration_request(".newuser"), None);
    assert_eq!(registration_request(".newuser a b"), None);
    assert_eq!(registration_request("hola"), None);
}

#[test]
fn registration_answers() {
    assert_eq!(
        registration_outcome(".accept ana 123\n"),
        Registration::Accepted { nickname: "ana".to_string(), id: "123".to_string() }
    );
    assert_eq!(
        registration_outcome(".reject ana"),
        Registration::Rejected { nickname: "ana".to_string() }
    );
    assert_eq!(registration_outcome(" rara "), Registration::Invalid("rara".to_string()));
}

#[test]
fn chat_lines_are_framed_with_the_id() {
    assert_eq!(chat_request("42", ".list"), Request::Ask("42 .list".to_string()));
    assert_eq!(chat_request("42", " .create  rust "), Request::Ask("42 .create rust".to_string()));
    assert_eq!(chat_request("42", ".join rust"), Request::Ask("42 .join rust".to_string()));
    assert_eq!(chat_request("42", ".leave"), Request::Send("42 .leave".to_string()));
    assert_eq!(chat_request("42", ".quit\n"), Request::Quit("42 .quit".to_string()));
    assert_eq!(chat_request("42", "hola   a\ttodos"), Request::Send("42 hola a todos".to_string()));
    assert_eq!(chat_request("42", ".list extra"), Request::Send("42 .list extra".to_string()));
    assert_eq!(chat_request("42", ".create"), Request::Send("42 .create".to_string()));
    assert_eq!(chat_request("42", "  \n"), Request::Unknown);
}
