use std::collections::hash_map::DefaultHasher;
use std::hash::{Hash, Hasher};

use practicas::chat::{Action, ChatServer};

fn id_of(nick: &str) -> u64 {
    let mut hasher = DefaultHasher::new();
    nick.hash(&mut hasher);
    hasher.finish()
}

fn reply(t: &str) -> Action {
    Action::Reply(t.to_string())
}

fn send(s: &mut ChatServer, msg: &str) -> Vec<Action> {
    s.handle_message(msg.as_bytes())
}

fn registered(s: &mut ChatServer, nick: &str) -> u64 {
    let h = id_of(nick);
    let acts = send(s, &format!(".newuser {}\n", nick));
    assert_eq!(
        acts,
        vec![Action::Register(h), reply(&format!(".accept {} {}", nick, h))]
    );
    h
}

#[test]
fn newuser_accepts_then_rejects_a_taken_nickname() {
    let mut s = ChatServer::new();
    registered(&mut s, "ana");
    assert_eq!(send(&mut s, ".newuser ana"), vec![reply(".reject ana")]);
    registered(&mut s, "bob");
}

#[test]
fn list_is_sorted_and_create_refuses_duplicates() {
    let mut s = ChatServer::new();
    let ha = registered(&mut s, "ana");
    assert_eq!(
        send(&mut s, &format!("{} .list", ha)),
        vec![reply(".info Lista de grupos: (vacia)")]
    );
    assert_eq!(send(&mut s, &format!("{} .create rust", ha)), vec![reply(".info Grupo rust creado")]);
    assert_eq!(send(&mut s, &format!("{} .create ada", ha)), vec![reply(".info Grupo ada creado")]);
    assert_eq!(
        send(&mut s, &format!("{} .create rust", ha)),
        vec![reply(".info Ese grupo ya esta creado")]
    );
    assert_eq!(
        send(&mut s, &format!("{} .list", ha)),
        vec![reply(".info Lista de grupos: ada, rust")]
    );
}

#[test]
fn join_say_leave_and_quit() {
    let mut s = ChatServer::new();
    let ha = registered(&mut s, "ana");
    let hb = registered(&mut s, "bob");
    send(&mut s, &format!("{} .create rust", ha));
    send(&mut s, &format!("{} .create ada", ha));
    assert_eq!(
        send(&mut s, &format!("{} .join nope", ha)),
        vec![reply(".info El grupo nope no existe")]
    );
    assert_eq!(
        send(&mut s, &format!("{} .join rust", ha)),
        vec![reply(".info Te has unido al grupo rust")]
    );
    assert_eq!(
        send(&mut s, &format!("{} .join ada", ha)),
        vec![reply(".info Tienes que salir primero de tu grupo actual")]
    );
    assert_eq!(
        send(&mut s, &format!("{} .join rust", hb)),
        vec![reply(".info Te has unido al grupo rust")]
    );
    assert_eq!(
        send(&mut s, &format!("{} hola  a todos\n", ha)),
        vec![Action::Notify(hb, "ana: hola  a todos\n".to_string())]
    );
    assert_eq!(
        send(&mut s, &format!("{} .leave", hb)),
        vec![
            Action::ReplyQuiet(".info Has salido del grupo".to_string()),
            Action::Notify(ha, "bob ha salido del grupo".to_string()),
        ]
    );
    assert_eq!(send(&mut s, &format!("{} .leave", hb)), vec![reply(".info No estas en un grupo")]);
    assert_eq!(
        send(&mut s, &format!("{} hola", hb)),
        vec![reply(".info Para mandar un mensaje debes estar en un grupo")]
    );
    assert_eq!(send(&mut s, &format!("{} .quit", hb)), vec![Action::Close]);
    send(&mut s, &format!("{} .join rust", hb));
    assert_eq!(
        send(&mut s, &format!("{} .quit", ha)),
        vec![Action::Notify(hb, "ana se ha ido del grupo rust".to_string())]
    );
    // The last member quitting tells nobody and keeps the connection.
    assert_eq!(send(&mut s, &format!("{} .quit", hb)), vec![]);
    assert_eq!(send(&mut s, &format!("{} .quit", hb)), vec![Action::Close]);
}

#[test]
fn join_then_leave_restores_the_groups() {
    let mut s = ChatServer::new();
    let ha = registered(&mut s, "ana");
    send(&mut s, &format!("{} .create rust", ha));
    send(&mut s, &format!("{} .join rust", ha));
    send(&mut s, &format!("{} .leave", ha));
    assert_eq!(
        send(&mut s, &format!("{} .join rust", ha)),
        vec![reply(".info Te has unido al grupo rust")]
    );
}

#[test]
fn faults_and_closing() {
    let mut s = ChatServer::new();
    let ha = registered(&mut s, "ana");
    send(&mut s, &format!("{} .create rust", ha));
    assert_eq!(s.handle_message(&[0xff, 0x20]), vec![Action::Fault]);
    assert_eq!(send(&mut s, "abc .join rust"), vec![Action::Fault]);
    assert_eq!(send(&mut s, "abc .join nope"), vec![reply(".info El grupo nope no existe")]);
    assert_eq!(send(&mut s, "abc .leave"), vec![Action::Fault]);
    assert_eq!(send(&mut s, "12 .leave"), vec![Action::Fault]);
    assert_eq!(send(&mut s, "abc .quit"), vec![Action::Fault]);
    assert_eq!(send(&mut s, "12 hola"), vec![Action::Fault]);
    assert_eq!(send(&mut s, "5"), vec![Action::Fault]);
    assert_eq!(send(&mut s, "   \n"), vec![Action::Close]);
    assert_eq!(send(&mut s, ""), vec![Action::Close]);
}

#[test]
fn message_text_is_cut_by_bytes_after_the_id() {
    let mut s = ChatServer::new();
    let ha = registered(&mut s, "ana");
    let hb = registered(&mut s, "bob");
    send(&mut s, &format!("{} .create g", ha));
    send(&mut s, &format!("{} .join g", ha));
    send(&mut s, &format!("{} .join g", hb));
    // A leading space moves the cut one byte to the left of the text.
    assert_eq!(
        send(&mut s, &format!(" {} hola", ha)),
        vec![Action::Notify(hb, "ana:  hola".to_string())]
    );
    // Leading three-byte spaces: the cut falls inside them or between two.
    let msg = format!("{}{} hola", "\u{3000}".repeat(8), ha);
    let k = ha.to_string().len() + 1;
    let expected = if msg.is_char_boundary(k) {
        vec![Action::Notify(hb, format!("ana: {}", &msg[k..]))]
    } else {
        vec![Action::Fault]
    };
    assert_eq!(send(&mut s, &msg), expected);
    let msg2 = format!("{}{} hola", "\u{3000}".repeat(9), ha);
    let expected2 = if msg2.is_char_boundary(k) {
        vec![Action::Notify(hb, format!("ana: {}", &msg2[k..]))]
    } else {
        vec![Action::Fault]
    };
    assert_eq!(send(&mut s, &msg2), expected2);
}

#[test]
fn newuser_with_extra_words_is_a_message() {
    let mut s = ChatServer::new();
    assert_eq!(send(&mut s, ".newuser a b"), vec![Action::Fault]);
}
