use practicas::chat::{Action, ChatServer};
use practicas::client::{chat_request, registration_outcome, registration_request, Registration, Request};

fn register(s: &mut ChatServer, nick: &str) -> String {
    let m = registration_request(&format!(".newuser {}", nick)).unwrap();
    let acts = s.handle_message(m.as_bytes());
    let reply = match &acts[1] {
        Action::Reply(t) => t.clone(),
        other => panic!("unexpected {:?}", other),
    };
    match registration_outcome(&reply) {
        Registration::Accepted { nickname, id } => {
            assert_eq!(nickname, nick);
            // The id parses back to the key the server filed the user under.
            assert_eq!(acts[0], Action::Register(id.parse::<u64>().unwrap()));
            id
        }
        other => panic!("unexpected {:?}", other),
    }
}

fn message(r: Request) -> String {
    match r {
        Request::Ask(m) | Request::Send(m) | Request::Quit(m) => m,
        Request::Unknown => panic!("no message"),
    }
}

#[test]
fn client_requests_are_read_back_by_the_server() {
    let mut s = ChatServer::new();
    let ana = register(&mut s, "ana");
    let bob = register(&mut s, "bob");
    let m = message(chat_request(&ana, "  .create   rust "));
    assert_eq!(s.handle_message(m.as_bytes()), vec![Action::Reply(".info Grupo rust creado".to_string())]);
    let m = message(chat_request(&ana, ".join rust"));
    s.handle_message(m.as_bytes());
    let m = message(chat_request(&bob, ".join rust"));
    s.handle_message(m.as_bytes());
    let m = message(chat_request(&ana, ".list"));
    assert_eq!(s.handle_message(m.as_bytes()), vec![Action::Reply(".info Lista de grupos: rust".to_string())]);
    // A chat line reaches the other member with its words one space apart.
    let m = message(chat_request(&ana, "  hola \t  mundo \n"));
    let hb: u64 = bob.parse().unwrap();
    assert_eq!(s.handle_message(m.as_bytes()), vec![Action::Notify(hb, "ana: hola mundo".to_string())]);
    let m = message(chat_request(&bob, ".quit"));
    let ha: u64 = ana.parse().unwrap();
    assert_eq!(
        s.handle_message(m.as_bytes()),
        vec![Action::Notify(ha, "bob se ha ido del grupo rust".to_string())]
    );
}

#[test]
fn a_taken_nickname_is_read_back_as_rejected() {
    let mut s = ChatServer::new();
    register(&mut s, "ana");
    let m = registration_request(".newuser ana").unwrap();
    let acts = s.handle_message(m.as_bytes());
    let reply = match &acts[0] {
        Action::Reply(t) => t.clone(),
        other => panic!("unexpected {:?}", other),
    };
    assert_eq!(registration_outcome(&reply), Registration::Rejected { nickname: "ana".to_string() });
}
