use vstd::prelude::*;

use crate::chat::{group_of, handle_spec, in_a_group, notify_all, without, ChatView};
use crate::sorting::texts;
use crate::text::{
    after_prefix, concat_text, decimal_text, decode_bytes_lossy, join_texts, join_words,
    lemma_boundary_between, lemma_decimal_digits, lemma_decimal_text_parses, lemma_encode_concat,
    lemma_words_are_single, lemma_words_join, lemma_words_of_single, lossy_utf8, parse_u64_spec,
    single_word, split_words, strip_prefix_text, text_is, trim, trim_end, trim_start, trim_text,
    unicode_whitespace, words,
};
use vstd::utf8::{decode_utf8, encode_utf8};

verus! {

/// A reply of the server to a request that waits for one.
#[derive(Debug, PartialEq, Eq)]
pub enum ServerReply {
    /// An informative message, with its text.
    Info(String),
    /// Anything else, trimmed.
    Unknown(String),
}

/// A message that arrived while chatting.
#[derive(Debug, PartialEq, Eq)]
pub enum Incoming {
    /// An informative message, with its text.
    Info(String),
    /// A message of the group, as received.
    Plain(String),
}

/// The server's answer to a registration.
#[derive(Debug, PartialEq, Eq)]
pub enum Registration {
    /// The nickname was accepted, and the server gave this id.
    Accepted { nickname: String, id: String },
    /// The nickname is in use.
    Rejected { nickname: String },
    /// Anything else, trimmed.
    Invalid(String),
}

/// What to do with a line the user typed while chatting.
#[derive(Debug, PartialEq, Eq)]
pub enum Request {
    /// Send this message and print the server's reply.
    Ask(String),
    /// Send this message.
    Send(String),
    /// Send this message and stop chatting.
    Quit(String),
    /// Nothing to send: the line holds no word.
    Unknown,
}

/// A `ServerReply`, `Incoming`, `Registration` or `Request` with its texts as
/// character sequences.
pub enum Said {
    Info(Seq<char>),
    Unknown(Seq<char>),
    Plain(Seq<char>),
    Accepted(Seq<char>, Seq<char>),
    Rejected(Seq<char>),
    Invalid(Seq<char>),
    Ask(Seq<char>),
    Send(Seq<char>),
    Quit(Seq<char>),
    Nothing,
}

impl View for ServerReply {
    type V = Said;

    open spec fn view(&self) -> Said {
        match self {
            ServerReply::Info(t) => Said::Info(t@),
            ServerReply::Unknown(t) => Said::Unknown(t@),
        }
    }
}

impl View for Incoming {
    type V = Said;

    open spec fn view(&self) -> Said {
        match self {
            Incoming::Info(t) => Said::Info(t@),
            Incoming::Plain(t) => Said::Plain(t@),
        }
    }
}

impl View for Registration {
    type V = Said;

    open spec fn view(&self) -> Said {
        match self {
            Registration::Accepted { nickname, id } => Said::Accepted(nickname@, id@),
            Registration::Rejected { nickname } => Said::Rejected(nickname@),
            Registration::Invalid(t) => Said::Invalid(t@),
        }
    }
}

impl View for Request {
    type V = Said;

    open spec fn view(&self) -> Said {
        match self {
            Request::Ask(t) => Said::Ask(t@),
            Request::Send(t) => Said::Send(t@),
            Request::Quit(t) => Said::Quit(t@),
            Request::Unknown => Said::Nothing,
        }
    }
}

/// A reply `raw`, trimmed, is informative when it starts with `.info `.
pub open spec fn reply_spec(raw: Seq<char>) -> Said {
    match after_prefix(trim(raw), ".info "@) {
        Some(x) => Said::Info(x),
        None => Said::Unknown(trim(raw)),
    }
}

/// Reads the reply to a request.
pub fn classify_reply(raw: &str) -> (r: ServerReply)
    ensures
        r@ == reply_spec(raw@),
{
    let t = trim_text(raw);
    match strip_prefix_text(t.as_str(), ".info ") {
        Some(x) => ServerReply::Info(x),
        None => ServerReply::Unknown(t),
    }
}

/// A message received while chatting is informative when its text starts
/// with `.info `.
pub open spec fn incoming_spec(b: Seq<u8>) -> Said {
    match after_prefix(lossy_utf8(b), ".info "@) {
        Some(x) => Said::Info(x),
        None => Said::Plain(lossy_utf8(b)),
    }
}

/// Reads a message received while chatting.
pub fn classify_incoming(b: &[u8]) -> (r: Incoming)
    ensures
        r@ == incoming_spec(b@),
{
    let t = decode_bytes_lossy(b);
    match strip_prefix_text(t.as_str(), ".info ") {
        Some(x) => Incoming::Info(x),
        None => Incoming::Plain(t),
    }
}

/// The registration message for the line `line`: only `.newuser nick` is one.
pub open spec fn registration_request_spec(line: Seq<char>) -> Option<Seq<char>> {
    let w = words(trim(line));
    if w.len() == 2 && w[0] == ".newuser"@ {
        Some(".newuser "@ + w[1] + "\n"@)
    } else {
        None
    }
}

/// The registration message to send for the line the user typed, if it is
/// `.newuser nick`.
pub fn registration_request(line: &str) -> (r: Option<String>)
    ensures
        match r {
            None => registration_request_spec(line@) is None,
            Some(m) => registration_request_spec(line@) == Some(m@),
        },
{
    let t = trim_text(line);
    let w = split_words(t.as_str());
    if w.len() == 2 && text_is(&w[0], ".newuser") {
        let mut m = String::from_str(".newuser ");
        m.append(w[1].as_str());
        m.append("\n");
        Some(m)
    } else {
        None
    }
}

/// The server's answer `raw` to a registration.
pub open spec fn registration_spec(raw: Seq<char>) -> Said {
    let w = words(trim(raw));
    if w.len() == 3 && w[0] == ".accept"@ {
        Said::Accepted(w[1], w[2])
    } else if w.len() == 2 && w[0] == ".reject"@ {
        Said::Rejected(w[1])
    } else {
        Said::Invalid(trim(raw))
    }
}

/// Reads the server's answer to a registration.
pub fn registration_outcome(raw: &str) -> (r: Registration)
    ensures
        r@ == registration_spec(raw@),
{
    let t = trim_text(raw);
    let w = split_words(t.as_str());
    if w.len() == 3 && text_is(&w[0], ".accept") {
        Registration::Accepted { nickname: w[1].clone(), id: w[2].clone() }
    } else if w.len() == 2 && text_is(&w[0], ".reject") {
        Registration::Rejected { nickname: w[1].clone() }
    } else {
        Registration::Invalid(t)
    }
}

/// What the line `line` asks for, from the user with id `id`.
pub open spec fn request_spec(id: Seq<char>, line: Seq<char>) -> Said {
    let w = words(trim(line));
    if w.len() == 1 && w[0] == ".list"@ {
        Said::Ask(id + " .list"@)
    } else if w.len() == 2 && w[0] == ".create"@ {
        Said::Ask(id + " .create "@ + w[1])
    } else if w.len() == 2 && w[0] == ".join"@ {
        Said::Ask(id + " .join "@ + w[1])
    } else if w.len() == 1 && w[0] == ".leave"@ {
        Said::Send(id + " .leave"@)
    } else if w.len() == 1 && w[0] == ".quit"@ {
        Said::Quit(id + " .quit"@)
    } else if w.len() >= 1 {
        Said::Send(id + " "@ + join_texts(w, " "@))
    } else {
        Said::Nothing
    }
}

/// Frames the line the user typed as a message to the server, from the user
/// with id `id`.
pub fn chat_request(id: &str, line: &str) -> (r: Request)
    ensures
        r@ == request_spec(id@, line@),
{
    let t = trim_text(line);
    let w = split_words(t.as_str());
    proof {
        assert(texts(w@) =~= words(trim(line@)));
    }
    if w.len() == 1 && text_is(&w[0], ".list") {
        Request::Ask(concat_text(id, " .list"))
    } else if w.len() == 2 && text_is(&w[0], ".create") {
        let mut m = concat_text(id, " .create ");
        m.append(w[1].as_str());
        Request::Ask(m)
    } else if w.len() == 2 && text_is(&w[0], ".join") {
        let mut m = concat_text(id, " .join ");
        m.append(w[1].as_str());
        Request::Ask(m)
    } else if w.len() == 1 && text_is(&w[0], ".leave") {
        Request::Send(concat_text(id, " .leave"))
    } else if w.len() == 1 && text_is(&w[0], ".quit") {
        Request::Quit(concat_text(id, " .quit"))
    } else if w.len() >= 1 {
        let mut m = concat_text(id, " ");
        let body = join_words(&w, " ");
        m.append(body.as_str());
        Request::Send(m)
    } else {
        Request::Unknown
    }
}

/// Whatever a line asks for, the server reads the message as the sender's id
/// followed by the words of the line, one space apart.
pub proof fn lemma_request_read_back(id: Seq<char>, line: Seq<char>)
    requires
        single_word(id),
    ensures
        match request_spec(id, line) {
            Said::Ask(m) => words(decode_utf8(encode_utf8(m))) == seq![id] + words(trim(line)),
            Said::Send(m) => words(decode_utf8(encode_utf8(m))) == seq![id] + words(trim(line)),
            Said::Quit(m) => words(decode_utf8(encode_utf8(m))) == seq![id] + words(trim(line)),
            _ => words(trim(line)).len() == 0,
        },
{
    broadcast use vstd::utf8::encode_utf8_decode_utf8;

    let w = words(trim(line));
    lemma_words_are_single(trim(line));
    lemma_words_of_single(id);
    reveal_strlit(" ");
    reveal_strlit(".list");
    reveal_strlit(" .list");
    reveal_strlit(".create");
    reveal_strlit(" .create ");
    reveal_strlit(".join");
    reveal_strlit(" .join ");
    reveal_strlit(".leave");
    reveal_strlit(" .leave");
    reveal_strlit(".quit");
    reveal_strlit(" .quit");
    if w.len() > 0 {
        lemma_words_join(id, w);
        let j = join_texts(w, " "@);
        if w.len() == 1 {
            assert(j == w[0]);
            assert(id + " .list"@ =~= id + " "@ + ".list"@);
            assert(id + " .leave"@ =~= id + " "@ + ".leave"@);
            assert(id + " .quit"@ =~= id + " "@ + ".quit"@);
        } else if w.len() == 2 {
            assert(w.drop_last() =~= seq![w[0]]);
            assert(join_texts(w.drop_last(), " "@) == w[0]);
            assert(j == w[0] + " "@ + w[1]);
            assert(id + " .create "@ + w[1] =~= id + " "@ + (".create"@ + " "@ + w[1]));
            assert(id + " .join "@ + w[1] =~= id + " "@ + (".join"@ + " "@ + w[1]));
        }
    }
}

/// A text whose first and last characters are not whitespace is its own trim.
proof fn lemma_trim_unchanged(t: Seq<char>)
    requires
        t.len() > 0,
        !unicode_whitespace(t[0]),
        !unicode_whitespace(t.last()),
    ensures
        trim(t) == t,
{
    assert(trim_start(t) == t);
    assert(trim_end(t) == t);
}

/// The server's answers to a registration read back as what they say: an
/// accepted nickname with the id that parses to the user's key, or a refused
/// nickname.
pub proof fn lemma_registration_read_back(nick: Seq<char>, h: u64)
    requires
        single_word(nick),
    ensures
        registration_spec(".accept "@ + nick + " "@ + decimal_text(h as nat)) == Said::Accepted(
            nick,
            decimal_text(h as nat),
        ),
        parse_u64_spec(decimal_text(h as nat)) == Some(h),
        registration_spec(".reject "@ + nick) == Said::Rejected(nick),
{
    lemma_decimal_text_parses(h);
    lemma_decimal_digits(h as nat);
    let d = decimal_text(h as nat);
    assert(single_word(d)) by {
        assert forall|i: int| 0 <= i < d.len() implies !unicode_whitespace(#[trigger] d[i]) by {
            assert('0' <= d[i] <= '9');
        }
    }
    reveal_strlit(" ");
    reveal_strlit(".accept");
    reveal_strlit(".accept ");
    reveal_strlit(".reject");
    reveal_strlit(".reject ");
    let acc = ".accept "@ + nick + " "@ + d;
    assert(acc =~= ".accept"@ + " "@ + join_texts(seq![nick, d], " "@)) by {
        assert(seq![nick, d].drop_last() =~= seq![nick]);
        assert(join_texts(seq![nick], " "@) == nick);
        assert(join_texts(seq![nick, d], " "@) == nick + " "@ + d);
        assert(".accept "@ =~= ".accept"@ + " "@);
    }
    assert(acc[0] == '.');
    assert(acc.last() == d.last());
    lemma_trim_unchanged(acc);
    assert(single_word(".accept"@));
    lemma_words_of_single(".accept"@);
    lemma_words_join(".accept"@, seq![nick, d]);
    assert(words(acc) =~= seq![".accept"@, nick, d]);
    let rej = ".reject "@ + nick;
    assert(join_texts(seq![nick], " "@) == nick);
    assert(".reject "@ =~= ".reject"@ + " "@);
    assert(rej =~= ".reject"@ + " "@ + join_texts(seq![nick], " "@));
    assert(rej[0] == '.');
    assert(rej.last() == nick.last());
    lemma_trim_unchanged(rej);
    assert(single_word(".reject"@));
    lemma_words_of_single(".reject"@);
    lemma_words_join(".reject"@, seq![nick]);
    assert(words(rej) =~= seq![".reject"@, nick]);
}

/// A line that is not a command, typed by a member of a group, reaches every
/// other member of that group as the member's nickname, `: ` and the words of
/// the line one space apart; nothing else changes.
pub proof fn lemma_line_reaches_group(v: ChatView, h: u64, line: Seq<char>, m: Seq<char>)
    requires
        v.users.contains_key(h),
        in_a_group(v.groups, h),
        request_spec(decimal_text(h as nat), line) == Said::Send(m),
        words(trim(line)) != seq![".leave"@],
    ensures
        handle_spec(v, encode_utf8(m)) == (
            v,
            notify_all(
                without(v.groups[group_of(v.groups, h)].1, h),
                v.users[h] + ": "@ + join_texts(words(trim(line)), " "@),
            ),
        ),
{
    broadcast use vstd::utf8::encode_utf8_decode_utf8, vstd::utf8::encode_utf8_valid_utf8;

    let id = decimal_text(h as nat);
    let w = words(trim(line));
    let body = join_texts(w, " "@);
    lemma_decimal_text_parses(h);
    lemma_decimal_digits(h as nat);
    assert(single_word(id)) by {
        assert forall|i: int| 0 <= i < id.len() implies !unicode_whitespace(#[trigger] id[i]) by {
            assert('0' <= id[i] <= '9');
        }
    }
    reveal_strlit(".leave");
    reveal_strlit(".newuser");
    reveal_strlit(" ");
    assert(w.len() == 1 ==> w[0] != ".leave"@) by {
        if w.len() == 1 && w[0] == ".leave"@ {
            assert(w =~= seq![".leave"@]);
        }
    }
    assert(w.len() >= 1);
    assert(m == id + " "@ + body);
    lemma_request_read_back(id, line);
    let ws = seq![id] + w;
    assert(words(decode_utf8(encode_utf8(m))) == ws);
    assert(ws[0] != ".newuser"@) by {
        assert('0' <= id[0] <= '9');
        assert(".newuser"@[0] == '.');
    }
    assert(ws[1] == w[0]);
    let msg = encode_utf8(m);
    let idsp = id + " "@;
    assert(m =~= idsp + body);
    lemma_encode_concat(idsp, body);
    lemma_encode_concat(id, " "@);
    assert(" "@ =~= seq![' ']);
    assert(encode_utf8(" "@).len() == 1) by {
        let sp = seq![' '];
        assert(sp.drop_first() =~= Seq::<char>::empty());
        assert((' ' as u32) == 32);
        assert(vstd::utf8::has_width_1_encoding(32u32));
        assert(vstd::utf8::encode_scalar(32u32).len() == 1);
        assert(encode_utf8(Seq::<char>::empty()).len() == 0);
        assert(encode_utf8(sp) == vstd::utf8::encode_scalar(sp[0] as u32) + encode_utf8(
            sp.drop_first(),
        ));
    }
    let k = encode_utf8(id).len() + 1int;
    assert(k == encode_utf8(idsp).len());
    lemma_boundary_between(idsp, body);
    assert(msg.subrange(k, msg.len() as int) =~= encode_utf8(body));
}

/// The line's words are one of the commands `.list`, `.create x`, `.join x`,
/// `.leave` or `.quit`.
pub open spec fn is_command(w: Seq<Seq<char>>) -> bool {
    ||| w == seq![".list"@]
    ||| (w.len() == 2 && (w[0] == ".create"@ || w[0] == ".join"@))
    ||| w == seq![".leave"@]
    ||| w == seq![".quit"@]
}

/// What a typed line becomes: the client stops chatting exactly when the line
/// is the single word `.quit`; a line with no word sends nothing; any other
/// line that is not a command is sent to the group as the sender's id and the
/// line's words one space apart, and the client goes on.
pub proof fn lemma_request_law(id: Seq<char>, line: Seq<char>)
    ensures
        ({
            let w = words(trim(line));
            let r = request_spec(id, line);
            &&& (r matches Said::Quit(_)) <==> w == seq![".quit"@]
            &&& w == seq![".quit"@] ==> r == Said::Quit(id + " .quit"@)
            &&& (r == Said::Nothing) <==> w.len() == 0
            &&& (w.len() >= 1 && !is_command(w)) ==> r == Said::Send(id + " "@ + join_texts(w, " "@))
            &&& w == seq![".leave"@] ==> r == Said::Send(id + " .leave"@)
        }),
{
    reveal_strlit(".list");
    reveal_strlit(".create");
    reveal_strlit(".join");
    reveal_strlit(".leave");
    reveal_strlit(".quit");
    let w = words(trim(line));
    assert(".quit"@[1] != ".list"@[1]);
    assert(".quit"@[1] != ".leave"@[1]);
    assert(".quit"@[1] != ".create"@[1]);
    assert(".quit"@[1] != ".join"@[1]);
    assert(".leave"@[2] != ".list"@[2]);
    if w.len() == 1 {
        if w[0] == ".quit"@ {
            assert(w =~= seq![".quit"@]);
        }
        if w[0] == ".list"@ {
            assert(w =~= seq![".list"@]);
        }
        if w[0] == ".leave"@ {
            assert(w =~= seq![".leave"@]);
        }
    }
}

} // verus!
