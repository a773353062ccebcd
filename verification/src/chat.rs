use std::collections::HashMap;
use vstd::prelude::*;
use vstd::std_specs::iter::IteratorSpec;
use vstd::string::StringSliceAdditionalSpecFns;
use vstd::utf8::{decode_utf8, encode_utf8, is_char_boundary, valid_utf8};

use crate::sorting::{
    lemma_sorted_unique, lemma_text_order_antisymmetric, sort_texts, sorted_texts, text_order,
    texts,
};
use crate::text::{
    concat_text, decimal_text, decode_bytes, hash_string, join_texts, parse_u64, parse_u64_spec,
    split_words, string_hash, text_is, u64_text, words,
};

verus! {

/// A chat group: its name and the ids of its members, in the order they
/// joined.
pub struct Group {
    name: String,
    members: Vec<u64>,
}

/// The state that all connections of the chat server share: the registered
/// users by id, and the groups in the order they were created.
///
/// The groups are a list with distinct names (see `chat_wf`) rather than a
/// hash map keyed by name: vstd's `HashMap` contracts hold only for key types
/// known to obey its key model, which covers integers but not `String`. No
/// group is looked up by hash, and since a user is in at most one group, the
/// order in which groups are searched never changes an answer.
pub struct ChatServer {
    users: HashMap<u64, String>,
    groups: Vec<Group>,
}

/// What a `ChatServer` stands for: each user's nickname by id, and each
/// group's name with its members.
#[verifier::ext_equal]
pub struct ChatView {
    pub users: Map<u64, Seq<char>>,
    pub groups: Seq<(Seq<char>, Seq<u64>)>,
}

impl View for ChatServer {
    type V = ChatView;

    closed spec fn view(&self) -> ChatView {
        ChatView {
            users: self.users@.map_values(|s: String| s@),
            groups: self.groups@.map_values(|g: Group| (g.name@, g.members@)),
        }
    }
}

/// What the connection that sent a message must do next.
#[derive(Debug, PartialEq, Eq)]
pub enum Action {
    /// Write this text back to the sender; a failed write ends the connection.
    Reply(String),
    /// Write this text back to the sender, ignoring a failed write.
    ReplyQuiet(String),
    /// Remember the sender's connection under this user id.
    Register(u64),
    /// Write this text to the connection of this user id, if there is one,
    /// ignoring a failed write.
    Notify(u64, String),
    /// Stop serving the sender.
    Close,
    /// The message cannot be served: the connection's handler gives up.
    Fault,
}

/// An `Action` with its texts as character sequences.
pub enum Effect {
    Reply(Seq<char>),
    ReplyQuiet(Seq<char>),
    Register(u64),
    Notify(u64, Seq<char>),
    Close,
    Fault,
}

impl View for Action {
    type V = Effect;

    open spec fn view(&self) -> Effect {
        match self {
            Action::Reply(t) => Effect::Reply(t@),
            Action::ReplyQuiet(t) => Effect::ReplyQuiet(t@),
            Action::Register(h) => Effect::Register(*h),
            Action::Notify(h, t) => Effect::Notify(*h, t@),
            Action::Close => Effect::Close,
            Action::Fault => Effect::Fault,
        }
    }
}

/// The effects of a list of actions.
pub open spec fn effects(acts: Seq<Action>) -> Seq<Effect> {
    acts.map_values(|a: Action| a@)
}

/// Group names are distinct, no group lists a member twice, and no user is
/// in two groups; nicknames are distinct.
pub open spec fn chat_wf(v: ChatView) -> bool {
    &&& forall|i: int, j: int|
        #![trigger v.groups[i], v.groups[j]]
        0 <= i < v.groups.len() && 0 <= j < v.groups.len() && i != j ==> v.groups[i].0
            != v.groups[j].0
    &&& forall|i: int| 0 <= i < v.groups.len() ==> no_repeats(#[trigger] v.groups[i].1)
    &&& forall|i: int, j: int, x: u64|
        #![trigger v.groups[i].1.contains(x), v.groups[j].1.contains(x)]
        0 <= i < v.groups.len() && 0 <= j < v.groups.len() && v.groups[i].1.contains(x)
            && v.groups[j].1.contains(x) ==> i == j
    &&& forall|h1: u64, h2: u64|
        #![trigger v.users[h1], v.users[h2]]
        v.users.contains_key(h1) && v.users.contains_key(h2) && v.users[h1] == v.users[h2] ==> h1
            == h2
}

/// No value occurs twice in `s`.
pub open spec fn no_repeats(s: Seq<u64>) -> bool {
    forall|p: int, q: int| 0 <= p < s.len() && 0 <= q < s.len() && s[p] == s[q] ==> p == q
}

/// Some registered user has the nickname `nick`.
pub open spec fn nick_taken(users: Map<u64, Seq<char>>, nick: Seq<char>) -> bool {
    exists|h: u64| users.contains_key(h) && users[h] == nick
}

/// Some group is called `name`.
pub open spec fn has_group(gs: Seq<(Seq<char>, Seq<u64>)>, name: Seq<char>) -> bool {
    exists|i: int| 0 <= i < gs.len() && gs[i].0 == name
}

/// The position of the group called `name`.
pub open spec fn group_named(gs: Seq<(Seq<char>, Seq<u64>)>, name: Seq<char>) -> int {
    choose|i: int| 0 <= i < gs.len() && gs[i].0 == name
}

/// User `h` is a member of some group.
pub open spec fn in_a_group(gs: Seq<(Seq<char>, Seq<u64>)>, h: u64) -> bool {
    exists|i: int| 0 <= i < gs.len() && gs[i].1.contains(h)
}

/// The position of the group that user `h` is a member of.
pub open spec fn group_of(gs: Seq<(Seq<char>, Seq<u64>)>, h: u64) -> int {
    choose|i: int| 0 <= i < gs.len() && gs[i].1.contains(h)
}

/// `ms` without the occurrences of `h`, the rest in order.
pub open spec fn without(ms: Seq<u64>, h: u64) -> Seq<u64>
    decreases ms.len(),
{
    if ms.len() == 0 {
        Seq::empty()
    } else if ms.last() == h {
        without(ms.drop_last(), h)
    } else {
        without(ms.drop_last(), h).push(ms.last())
    }
}

/// One notice with `text` for each of `ms`, in order.
pub open spec fn notify_all(ms: Seq<u64>, text: Seq<char>) -> Seq<Effect> {
    Seq::new(ms.len(), |k: int| Effect::Notify(ms[k], text))
}

/// The names of the groups, in creation order.
pub open spec fn group_names(gs: Seq<(Seq<char>, Seq<u64>)>) -> Seq<Seq<char>> {
    gs.map_values(|g: (Seq<char>, Seq<u64>)| g.0)
}

/// The texts `ns` in lexicographic order.
pub open spec fn in_order(ns: Seq<Seq<char>>) -> Seq<Seq<char>> {
    choose|s: Seq<Seq<char>>| sorted_texts(s) && s.to_multiset() == ns.to_multiset()
}

/// The answer to `.list`: the group names in lexicographic order.
pub open spec fn list_text(gs: Seq<(Seq<char>, Seq<u64>)>) -> Seq<char> {
    if gs.len() == 0 {
        ".info Lista de grupos: (vacia)"@
    } else {
        ".info Lista de grupos: "@ + join_texts(in_order(group_names(gs)), ", "@)
    }
}

/// `.newuser nick`: a nickname in use is refused; otherwise the user is
/// registered under the hash of the nickname and told that id.
pub open spec fn new_user_spec(v: ChatView, nick: Seq<char>) -> (ChatView, Seq<Effect>) {
    if nick_taken(v.users, nick) {
        (v, seq![Effect::Reply(".reject "@ + nick)])
    } else {
        let h = string_hash(nick);
        (
            ChatView { users: v.users.insert(h, nick), groups: v.groups },
            seq![
                Effect::Register(h),
                Effect::Reply(".accept "@ + nick + " "@ + decimal_text(h as nat)),
            ],
        )
    }
}

/// `id .create name`: a new, empty group, unless the name is taken.
pub open spec fn create_spec(v: ChatView, name: Seq<char>) -> (ChatView, Seq<Effect>) {
    if has_group(v.groups, name) {
        (v, seq![Effect::Reply(".info Ese grupo ya esta creado"@)])
    } else {
        (
            ChatView { users: v.users, groups: v.groups.push((name, Seq::empty())) },
            seq![Effect::Reply(".info Grupo "@ + name + " creado"@)],
        )
    }
}

/// `id .join name`: the user joins an existing group unless already in one.
pub open spec fn join_spec(v: ChatView, id_text: Seq<char>, name: Seq<char>) -> (
    ChatView,
    Seq<Effect>,
) {
    if !has_group(v.groups, name) {
        (v, seq![Effect::Reply(".info El grupo "@ + name + " no existe"@)])
    } else {
        match parse_u64_spec(id_text) {
            None => (v, seq![Effect::Fault]),
            Some(h) => if in_a_group(v.groups, h) {
                (v, seq![Effect::Reply(".info Tienes que salir primero de tu grupo actual"@)])
            } else {
                let i = group_named(v.groups, name);
                (
                    ChatView {
                        users: v.users,
                        groups: v.groups.update(i, (name, v.groups[i].1.push(h))),
                    },
                    seq![Effect::Reply(".info Te has unido al grupo "@ + name)],
                )
            },
        }
    }
}

/// The state after user `h` left the group at position `i`.
pub open spec fn leave_group(v: ChatView, i: int, h: u64) -> ChatView {
    ChatView { users: v.users, groups: v.groups.update(i, (v.groups[i].0, without(v.groups[i].1, h))) }
}

/// `id .leave`: the user leaves its group, and the members left are told.
pub open spec fn leave_spec(v: ChatView, id_text: Seq<char>) -> (ChatView, Seq<Effect>) {
    match parse_u64_spec(id_text) {
        None => (v, seq![Effect::Fault]),
        Some(h) => if !v.users.contains_key(h) {
            (v, seq![Effect::Fault])
        } else if in_a_group(v.groups, h) {
            let i = group_of(v.groups, h);
            let rest = without(v.groups[i].1, h);
            (
                leave_group(v, i, h),
                seq![Effect::ReplyQuiet(".info Has salido del grupo"@)] + notify_all(
                    rest,
                    v.users[h] + " ha salido del grupo"@,
                ),
            )
        } else {
            (v, seq![Effect::Reply(".info No estas en un grupo"@)])
        },
    }
}

/// `id .quit`: a user in a group leaves it, and the members left are told;
/// a user in no group is disconnected.
pub open spec fn quit_spec(v: ChatView, id_text: Seq<char>) -> (ChatView, Seq<Effect>) {
    match parse_u64_spec(id_text) {
        None => (v, seq![Effect::Fault]),
        Some(h) => if in_a_group(v.groups, h) {
            let i = group_of(v.groups, h);
            let rest = without(v.groups[i].1, h);
            if rest.len() == 0 {
                (leave_group(v, i, h), Seq::empty())
            } else if !v.users.contains_key(h) {
                (leave_group(v, i, h), seq![Effect::Fault])
            } else {
                (
                    leave_group(v, i, h),
                    notify_all(rest, v.users[h] + " se ha ido del grupo "@ + v.groups[i].0),
                )
            }
        } else {
            (v, seq![Effect::Close])
        },
    }
}

/// Any other message `id text`: the text after the id (cut at byte
/// `len(id) + 1` of the message) goes to the other members of the sender's
/// group.
pub open spec fn say_spec(v: ChatView, msg: Seq<u8>, id_text: Seq<char>) -> (
    ChatView,
    Seq<Effect>,
) {
    let k = encode_utf8(id_text).len() + 1int;
    if !is_char_boundary(msg, k) {
        (v, seq![Effect::Fault])
    } else {
        match parse_u64_spec(id_text) {
            None => (v, seq![Effect::Fault]),
            Some(h) => if !v.users.contains_key(h) {
                (v, seq![Effect::Fault])
            } else if in_a_group(v.groups, h) {
                let body = decode_utf8(msg.subrange(k, msg.len() as int));
                (
                    v,
                    notify_all(
                        without(v.groups[group_of(v.groups, h)].1, h),
                        v.users[h] + ": "@ + body,
                    ),
                )
            } else {
                (v, seq![Effect::Reply(".info Para mandar un mensaje debes estar en un grupo"@)])
            },
        }
    }
}

/// How the server answers one message `msg` received on a connection: the new
/// state and what the connection must do.
pub open spec fn handle_spec(v: ChatView, msg: Seq<u8>) -> (ChatView, Seq<Effect>) {
    if !valid_utf8(msg) {
        (v, seq![Effect::Fault])
    } else {
        let w = words(decode_utf8(msg));
        if w.len() == 2 && w[0] == ".newuser"@ {
            new_user_spec(v, w[1])
        } else if w.len() == 2 && w[1] == ".list"@ {
            (v, seq![Effect::Reply(list_text(v.groups))])
        } else if w.len() == 3 && w[1] == ".create"@ {
            create_spec(v, w[2])
        } else if w.len() == 3 && w[1] == ".join"@ {
            join_spec(v, w[0], w[2])
        } else if w.len() == 2 && w[1] == ".leave"@ {
            leave_spec(v, w[0])
        } else if w.len() == 2 && w[1] == ".quit"@ {
            quit_spec(v, w[0])
        } else if w.len() >= 1 {
            say_spec(v, msg, w[0])
        } else {
            (v, seq![Effect::Close])
        }
    }
}

/// Removing a value keeps the others, each in order and at most once if it was.
pub proof fn lemma_without(ms: Seq<u64>, h: u64)
    ensures
        forall|x: u64| #[trigger] without(ms, h).contains(x) <==> (ms.contains(x) && x != h),
        no_repeats(ms) ==> no_repeats(without(ms, h)),
        without(ms, h).len() <= ms.len(),
    decreases ms.len(),
{
    if ms.len() > 0 {
        let m0 = ms.drop_last();
        lemma_without(m0, h);
        assert(ms =~= m0.push(ms.last()));
        let w0 = without(m0, h);
        let w = without(ms, h);
        assert forall|x: u64| #[trigger] without(ms, h).contains(x) <==> (ms.contains(x) && x != h) by {
            if ms.contains(x) {
                let p = choose|p: int| 0 <= p < ms.len() && ms[p] == x;
                if p < ms.len() - 1 {
                    assert(m0[p] == x);
                    assert(m0.contains(x));
                }
            }
            if m0.contains(x) {
                let p = choose|p: int| 0 <= p < m0.len() && m0[p] == x;
                assert(ms[p] == x);
            }
            if ms.last() == h {
                assert(w =~= w0);
            } else {
                assert(w =~= w0.push(ms.last()));
                assert(w[w0.len() as int] == ms.last());
                if w.contains(x) {
                    let p = choose|p: int| 0 <= p < w.len() && w[p] == x;
                    if p < w0.len() {
                        assert(w0[p] == x);
                        assert(w0.contains(x));
                    }
                }
                if w0.contains(x) {
                    let p = choose|p: int| 0 <= p < w0.len() && w0[p] == x;
                    assert(w[p] == x);
                }
            }
        }
        if no_repeats(ms) {
            assert(no_repeats(m0)) by {
                assert forall|p: int, q: int| 0 <= p < m0.len() && 0 <= q < m0.len() && m0[p]
                    == m0[q] implies p == q by {
                    assert(ms[p] == m0[p] && ms[q] == m0[q]);
                }
            }
            if ms.last() != h {
                let w0 = without(m0, h);
                let w = without(ms, h);
                assert(!w0.contains(ms.last())) by {
                    if m0.contains(ms.last()) {
                        let p = choose|p: int| 0 <= p < m0.len() && m0[p] == ms.last();
                        assert(ms[p] == ms[ms.len() - 1]);
                    }
                }
                assert forall|p: int, q: int| 0 <= p < w.len() && 0 <= q < w.len() && w[p]
                    == w[q] implies p == q by {
                    if p < w0.len() && q == w0.len() {
                        assert(w0.contains(w0[p]));
                    }
                    if q < w0.len() && p == w0.len() {
                        assert(w0.contains(w0[q]));
                    }
                }
            }
        }
    }
}

/// Removing a value that does not occur changes nothing.
pub proof fn lemma_without_absent(ms: Seq<u64>, h: u64)
    requires
        !ms.contains(h),
    ensures
        without(ms, h) == ms,
    decreases ms.len(),
{
    if ms.len() > 0 {
        let m0 = ms.drop_last();
        assert(!m0.contains(h)) by {
            if m0.contains(h) {
                let p = choose|p: int| 0 <= p < m0.len() && m0[p] == h;
                assert(ms[p] == h);
            }
        }
        lemma_without_absent(m0, h);
        assert(ms.last() != h);
        assert(m0.push(ms.last()) =~= ms);
    }
}

/// A user in no group who joins a group and then leaves it is back where it
/// started: the state is the one before the `.join`.
pub proof fn lemma_join_then_leave(v: ChatView, id_text: Seq<char>, name: Seq<char>, h: u64)
    requires
        chat_wf(v),
        has_group(v.groups, name),
        parse_u64_spec(id_text) == Some(h),
        v.users.contains_key(h),
        !in_a_group(v.groups, h),
    ensures
        in_a_group(join_spec(v, id_text, name).0.groups, h),
        leave_spec(join_spec(v, id_text, name).0, id_text).0 == v,
{
    let i = group_named(v.groups, name);
    let ms = v.groups[i].1;
    let v1 = join_spec(v, id_text, name).0;
    assert(!ms.contains(h));
    assert(v1.groups[i].1 == ms.push(h));
    assert(ms.push(h)[ms.len() as int] == h);
    assert(v1.groups[i].1.contains(h));
    assert(in_a_group(v1.groups, h));
    let j = group_of(v1.groups, h);
    assert(j == i) by {
        if j != i {
            assert(v1.groups[j] == v.groups[j]);
            assert(v.groups[j].1.contains(h));
        }
    }
    let mh = ms.push(h);
    assert(without(mh, h) == without(ms, h)) by {
        assert(mh.drop_last() =~= ms);
    }
    lemma_without_absent(ms, h);
    let v2 = leave_spec(v1, id_text).0;
    assert(v2.groups =~= v.groups);
    assert(v2 =~= v);
}

/// Whether some value of `users` is the text `nick`.
fn nick_in_use_map(users: &HashMap<u64, String>, nick: &String) -> (b: bool)
    ensures
        b == exists|h: u64| users@.contains_key(h) && users@[h]@ == nick@,
{
    let mut taken = false;
    let ghost s = vstd::std_specs::hash::spec_values_iter(users).remaining();
    for v in it: users.values()
        invariant
            it.seq() == s,
            taken == exists|j: int| 0 <= j < it.index() && (*s[j])@ == nick@,
    {
        if *v == *nick {
            taken = true;
        }
    }
    proof {
        let vals = s.unref();
        vstd::std_specs::hash::axiom_spec_values_iter(users);
        assert(vals.to_set() == users@.values());
        if taken {
            let j = choose|j: int| 0 <= j < s.len() && (*s[j])@ == nick@;
            assert(vals.to_set().contains(vals[j]));
            assert(users@.values().contains(vals[j]));
        }
        if exists|h: u64| users@.contains_key(h) && users@[h]@ == nick@ {
            let h = choose|h: u64| users@.contains_key(h) && users@[h]@ == nick@;
            assert(users@.values().contains(users@[h]));
            assert(vals.to_set().contains(users@[h]));
            assert(vals.contains(users@[h]));
        }
    }
    taken
}

/// Replacing the members of group `i` by a list without repeats whose
/// members were in that group or in none keeps the state well formed.
proof fn lemma_wf_replace_members(v: ChatView, i: int, ms: Seq<u64>)
    requires
        chat_wf(v),
        0 <= i < v.groups.len(),
        no_repeats(ms),
        forall|x: u64| #[trigger]
            ms.contains(x) ==> v.groups[i].1.contains(x) || !in_a_group(v.groups, x),
    ensures
        chat_wf(ChatView { users: v.users, groups: v.groups.update(i, (v.groups[i].0, ms)) }),
{
    let gs = v.groups.update(i, (v.groups[i].0, ms));
    assert forall|a: int, b: int|
        #![trigger gs[a], gs[b]]
        0 <= a < gs.len() && 0 <= b < gs.len() && a != b implies gs[a].0 != gs[b].0 by {
        assert(gs[a].0 == v.groups[a].0 && gs[b].0 == v.groups[b].0);
    }
    assert forall|a: int| 0 <= a < gs.len() implies no_repeats(#[trigger] gs[a].1) by {
        if a != i {
            assert(gs[a] == v.groups[a]);
        }
    }
    assert forall|a: int, b: int, x: u64|
        #![trigger gs[a].1.contains(x), gs[b].1.contains(x)]
        0 <= a < gs.len() && 0 <= b < gs.len() && gs[a].1.contains(x) && gs[b].1.contains(
            x,
        ) implies a == b by {
        if a == i && b != i {
            assert(gs[b] == v.groups[b]);
            assert(ms.contains(x));
            assert(v.groups[i].1.contains(x) || !in_a_group(v.groups, x));
        } else if b == i && a != i {
            assert(gs[a] == v.groups[a]);
            assert(ms.contains(x));
            assert(v.groups[i].1.contains(x) || !in_a_group(v.groups, x));
        } else if a != i && b != i {
            assert(gs[a] == v.groups[a] && gs[b] == v.groups[b]);
        }
    }
}

/// Whether `ms` holds `h`.
fn holds_id(ms: &Vec<u64>, h: u64) -> (b: bool)
    ensures
        b == ms@.contains(h),
{
    let n = ms.len();
    for i in 0..n
        invariant
            n == ms@.len(),
            forall|k: int| 0 <= k < i ==> ms@[k] != h,
    {
        if ms[i] == h {
            return true;
        }
    }
    false
}

/// A copy of `ms` without `h`.
fn ids_without(ms: &Vec<u64>, h: u64) -> (r: Vec<u64>)
    ensures
        r@ == without(ms@, h),
{
    let n = ms.len();
    let mut r: Vec<u64> = Vec::new();
    for i in 0..n
        invariant
            n == ms@.len(),
            r@ == without(ms@.take(i as int), h),
    {
        proof {
            assert(ms@.take(i + 1).drop_last() =~= ms@.take(i as int));
        }
        if ms[i] != h {
            r.push(ms[i]);
        }
    }
    proof {
        assert(ms@.take(n as int) =~= ms@);
    }
    r
}

/// A copy of `ms`.
fn copy_ids(ms: &Vec<u64>) -> (r: Vec<u64>)
    ensures
        r@ == ms@,
{
    let n = ms.len();
    let mut r: Vec<u64> = Vec::new();
    for i in 0..n
        invariant
            n == ms@.len(),
            r@ == ms@.take(i as int),
    {
        r.push(ms[i]);
        proof {
            assert(r@ =~= ms@.take(i + 1));
        }
    }
    proof {
        assert(ms@.take(n as int) =~= ms@);
    }
    r
}

/// One notice with `text` for each of `ms`.
fn notices(ms: &Vec<u64>, text: &String) -> (r: Vec<Action>)
    ensures
        effects(r@) == notify_all(ms@, text@),
{
    let n = ms.len();
    let mut r: Vec<Action> = Vec::new();
    for i in 0..n
        invariant
            n == ms@.len(),
            effects(r@) == notify_all(ms@.take(i as int), text@),
    {
        let ghost r0 = r@;
        let t = text.clone();
        r.push(Action::Notify(ms[i], t));
        proof {
            assert(r@ == r0.push(Action::Notify(ms@[i as int], t)));
            assert(ms@.take(i as int).len() == i);
            assert(notify_all(ms@.take(i as int), text@).len() == i);
            assert(effects(r0).len() == r0.len());
            assert(r0.len() == i);
            assert(effects(r@) =~= notify_all(ms@.take(i + 1), text@)) by {
                assert(effects(r@).len() == i + 1);
                assert forall|k: int| 0 <= k < i + 1 implies #[trigger] effects(r@)[k] == notify_all(
                    ms@.take(i + 1),
                    text@,
                )[k] by {
                    if k < i {
                        assert(effects(r0)[k] == notify_all(ms@.take(i as int), text@)[k]);
                    }
                }
            }
        }
    }
    proof {
        assert(ms@.take(n as int) =~= ms@);
    }
    r
}

impl ChatServer {
    /// The state that `ChatServer` needs to hold: `chat_wf` of its view.
    pub open spec fn wf(&self) -> bool {
        chat_wf(self@)
    }

    /// A server with no users and no groups.
    pub fn new() -> (s: Self)
        ensures
            s@.users == Map::<u64, Seq<char>>::empty(),
            s@.groups == Seq::<(Seq<char>, Seq<u64>)>::empty(),
            s.wf(),
    {
        let s = ChatServer { users: HashMap::new(), groups: Vec::new() };
        proof {
            assert(s@.users =~= Map::<u64, Seq<char>>::empty());
            assert(s@.groups =~= Seq::<(Seq<char>, Seq<u64>)>::empty());
        }
        s
    }

    /// Whether some user has the nickname `nick`.
    fn nick_in_use(&self, nick: &String) -> (b: bool)
        ensures
            b == nick_taken(self@.users, nick@),
    {
        let b = nick_in_use_map(&self.users, nick);
        proof {
            if b {
                let h = choose|h: u64| self.users@.contains_key(h) && self.users@[h]@ == nick@;
                assert(self@.users.contains_key(h) && self@.users[h] == nick@);
            }
            if nick_taken(self@.users, nick@) {
                let h = choose|h: u64| self@.users.contains_key(h) && self@.users[h] == nick@;
                assert(self.users@.contains_key(h) && self.users@[h]@ == nick@);
            }
        }
        b
    }

    /// The position of the group called `name`, if any.
    fn find_group(&self, name: &String) -> (r: Option<usize>)
        requires
            self.wf(),
        ensures
            match r {
                None => !has_group(self@.groups, name@),
                Some(i) => i < self@.groups.len() && self@.groups[i as int].0 == name@ && i
                    == group_named(self@.groups, name@),
            },
    {
        let n = self.groups.len();
        for i in 0..n
            invariant
                n == self@.groups.len(),
                self.wf(),
                forall|k: int| 0 <= k < i ==> self@.groups[k].0 != name@,
        {
            if self.groups[i].name == *name {
                proof {
                    assert(self@.groups[i as int].0 == name@);
                    let j = group_named(self@.groups, name@);
                    assert(self@.groups[j].0 == name@);
                }
                return Some(i);
            }
        }
        None
    }

    /// The position of the group that user `h` is in, if any.
    fn group_with(&self, h: u64) -> (r: Option<usize>)
        requires
            self.wf(),
        ensures
            match r {
                None => !in_a_group(self@.groups, h),
                Some(i) => i < self@.groups.len() && self@.groups[i as int].1.contains(h) && i
                    == group_of(self@.groups, h),
            },
    {
        let n = self.groups.len();
        for i in 0..n
            invariant
                n == self@.groups.len(),
                self.wf(),
                forall|k: int| 0 <= k < i ==> !self@.groups[k].1.contains(h),
        {
            if holds_id(&self.groups[i].members, h) {
                proof {
                    assert(self@.groups[i as int].1.contains(h));
                    let j = group_of(self@.groups, h);
                    assert(self@.groups[j].1.contains(h));
                }
                return Some(i);
            }
        }
        None
    }

    /// `.newuser nick`.
    fn new_user(&mut self, nick: &String) -> (acts: Vec<Action>)
        requires
            old(self).wf(),
        ensures
            final(self).wf(),
            final(self)@ == new_user_spec(old(self)@, nick@).0,
            effects(acts@) == new_user_spec(old(self)@, nick@).1,
    {
        if self.nick_in_use(nick) {
            let r = concat_text(".reject ", nick.as_str());
            let acts = vec![Action::Reply(r)];
            proof {
                assert(effects(acts@) =~= new_user_spec(old(self)@, nick@).1);
            }
            return acts;
        }
        let h = hash_string(nick.as_str());
        let ghost v0 = self@;
        self.users.insert(h, nick.clone());
        let mut t = concat_text(".accept ", nick.as_str());
        t.append(" ");
        let ht = u64_text(h);
        t.append(ht.as_str());
        let acts = vec![Action::Register(h), Action::Reply(t)];
        proof {
            assert(self@.users =~= v0.users.insert(h, nick@));
            assert(self@ =~= new_user_spec(v0, nick@).0);
            assert(effects(acts@) =~= new_user_spec(v0, nick@).1);
            let u = self@.users;
            assert forall|h1: u64, h2: u64|
                u.contains_key(h1) && u.contains_key(h2) && #[trigger] u[h1] == #[trigger] u[h2]
                implies h1 == h2 by {
                if h1 != h && h2 != h {
                    assert(v0.users[h1] == u[h1] && v0.users[h2] == u[h2]);
                } else if h1 == h && h2 != h {
                    assert(v0.users.contains_key(h2) && v0.users[h2] == nick@);
                } else if h2 == h && h1 != h {
                    assert(v0.users.contains_key(h1) && v0.users[h1] == nick@);
                }
            }
        }
        acts
    }

    /// `id .create name`.
    fn create(&mut self, name: &String) -> (acts: Vec<Action>)
        requires
            old(self).wf(),
        ensures
            final(self).wf(),
            final(self)@ == create_spec(old(self)@, name@).0,
            effects(acts@) == create_spec(old(self)@, name@).1,
    {
        match self.find_group(name) {
            Some(_) => {
                let acts = vec![Action::Reply(String::from_str(".info Ese grupo ya esta creado"))];
                proof {
                    assert(effects(acts@) =~= create_spec(old(self)@, name@).1);
                }
                acts
            },
            None => {
                let ghost v0 = self@;
                self.groups.push(Group { name: name.clone(), members: Vec::new() });
                let mut t = concat_text(".info Grupo ", name.as_str());
                t.append(" creado");
                let acts = vec![Action::Reply(t)];
                proof {
                    assert(self@.groups =~= v0.groups.push((name@, Seq::empty())));
                    assert(self@ =~= create_spec(v0, name@).0);
                    assert(effects(acts@) =~= create_spec(v0, name@).1);
                    let gs = self@.groups;
                    assert forall|i: int, j: int|
                        #![trigger gs[i], gs[j]]
                        0 <= i < gs.len() && 0 <= j < gs.len() && i != j implies gs[i].0
                        != gs[j].0 by {
                        if i == v0.groups.len() {
                            assert(v0.groups[j].0 != name@);
                        } else if j == v0.groups.len() {
                            assert(v0.groups[i].0 != name@);
                        } else {
                            assert(gs[i] == v0.groups[i] && gs[j] == v0.groups[j]);
                        }
                    }
                    assert forall|i: int| 0 <= i < gs.len() implies no_repeats(#[trigger] gs[i].1) by {
                        if i < v0.groups.len() {
                            assert(gs[i] == v0.groups[i]);
                        }
                    }
                    assert forall|i: int, j: int, x: u64|
                        #![trigger gs[i].1.contains(x), gs[j].1.contains(x)]
                        0 <= i < gs.len() && 0 <= j < gs.len() && gs[i].1.contains(x)
                            && gs[j].1.contains(x) implies i == j by {
                        if i < v0.groups.len() && j < v0.groups.len() {
                            assert(gs[i] == v0.groups[i] && gs[j] == v0.groups[j]);
                        }
                    }
                }
                acts
            },
        }
    }

    /// Gives group `i` the members `ms`.
    fn set_members(&mut self, i: usize, ms: Vec<u64>)
        requires
            i < old(self)@.groups.len(),
        ensures
            final(self)@ == (ChatView {
                users: old(self)@.users,
                groups: old(self)@.groups.update(i as int, (old(self)@.groups[i as int].0, ms@)),
            }),
    {
        let ghost v0 = self@;
        let nm = self.groups[i].name.clone();
        self.groups.set(i, Group { name: nm, members: ms });
        proof {
            assert(self@.groups =~= v0.groups.update(i as int, (v0.groups[i as int].0, ms@)));
            assert(self@.users =~= v0.users);
        }
    }

    /// `id .join name`.
    fn join(&mut self, id_text: &String, name: &String) -> (acts: Vec<Action>)
        requires
            old(self).wf(),
        ensures
            final(self).wf(),
            final(self)@ == join_spec(old(self)@, id_text@, name@).0,
            effects(acts@) == join_spec(old(self)@, id_text@, name@).1,
    {
        let ghost v0 = self@;
        match self.find_group(name) {
            None => {
                let mut t = concat_text(".info El grupo ", name.as_str());
                t.append(" no existe");
                let acts = vec![Action::Reply(t)];
                proof {
                    assert(effects(acts@) =~= join_spec(v0, id_text@, name@).1);
                }
                acts
            },
            Some(i) => match parse_u64(id_text.as_str()) {
                None => {
                    let acts = vec![Action::Fault];
                    proof {
                        assert(effects(acts@) =~= join_spec(v0, id_text@, name@).1);
                    }
                    acts
                },
                Some(h) => match self.group_with(h) {
                    Some(_) => {
                        let acts = vec![
                            Action::Reply(
                                String::from_str(".info Tienes que salir primero de tu grupo actual"),
                            ),
                        ];
                        proof {
                            assert(effects(acts@) =~= join_spec(v0, id_text@, name@).1);
                        }
                        acts
                    },
                    None => {
                        let mut ms = copy_ids(&self.groups[i].members);
                        ms.push(h);
                        proof {
                            let old_ms = v0.groups[i as int].1;
                            assert(ms@ == old_ms.push(h));
                            assert(!old_ms.contains(h));
                            assert(no_repeats(ms@)) by {
                                assert forall|p: int, q: int|
                                    0 <= p < ms@.len() && 0 <= q < ms@.len() && ms@[p] == ms@[q]
                                    implies p == q by {
                                    if p < old_ms.len() && q == old_ms.len() {
                                        assert(old_ms.contains(old_ms[p]));
                                    }
                                    if q < old_ms.len() && p == old_ms.len() {
                                        assert(old_ms.contains(old_ms[q]));
                                    }
                                }
                            }
                            assert forall|x: u64| #[trigger] ms@.contains(x) implies old_ms.contains(
                                x,
                            ) || !in_a_group(v0.groups, x) by {
                                let p = choose|p: int| 0 <= p < ms@.len() && ms@[p] == x;
                                if p < old_ms.len() {
                                    assert(old_ms[p] == x);
                                }
                            }
                            lemma_wf_replace_members(v0, i as int, ms@);
                        }
                        self.set_members(i, ms);
                        let t = concat_text(".info Te has unido al grupo ", name.as_str());
                        let acts = vec![Action::Reply(t)];
                        proof {
                            assert(self@ =~= join_spec(v0, id_text@, name@).0);
                            assert(effects(acts@) =~= join_spec(v0, id_text@, name@).1);
                        }
                        acts
                    },
                },
            },
        }
    }

    /// The nickname of user `h`, if registered.
    fn nickname(&self, h: u64) -> (r: Option<String>)
        ensures
            match r {
                None => !self@.users.contains_key(h),
                Some(n) => self@.users.contains_key(h) && n@ == self@.users[h],
            },
    {
        match self.users.get(&h) {
            None => None,
            Some(n) => Some(n.clone()),
        }
    }

    /// Takes user `h` out of group `i`, which holds it, and returns the members
    /// left.
    fn leave_group_at(&mut self, i: usize, h: u64) -> (rest: Vec<u64>)
        requires
            old(self).wf(),
            i < old(self)@.groups.len(),
            old(self)@.groups[i as int].1.contains(h),
        ensures
            final(self).wf(),
            final(self)@ == leave_group(old(self)@, i as int, h),
            rest@ == without(old(self)@.groups[i as int].1, h),
    {
        let ghost v0 = self@;
        let rest = ids_without(&self.groups[i].members, h);
        let kept = copy_ids(&rest);
        proof {
            lemma_without(v0.groups[i as int].1, h);
            assert forall|x: u64| #[trigger] kept@.contains(x) implies v0.groups[i as int].1.contains(
                x,
            ) || !in_a_group(v0.groups, x) by {
                assert(without(v0.groups[i as int].1, h).contains(x));
            }
            lemma_wf_replace_members(v0, i as int, kept@);
        }
        self.set_members(i, kept);
        proof {
            assert(self@ =~= leave_group(v0, i as int, h));
        }
        rest
    }

    /// `id .leave`.
    fn leave(&mut self, id_text: &String) -> (acts: Vec<Action>)
        requires
            old(self).wf(),
        ensures
            final(self).wf(),
            final(self)@ == leave_spec(old(self)@, id_text@).0,
            effects(acts@) == leave_spec(old(self)@, id_text@).1,
    {
        let ghost v0 = self@;
        let h = match parse_u64(id_text.as_str()) {
            None => {
                let acts = vec![Action::Fault];
                proof {
                    assert(effects(acts@) =~= leave_spec(v0, id_text@).1);
                }
                return acts;
            },
            Some(h) => h,
        };
        let nick = match self.nickname(h) {
            None => {
                let acts = vec![Action::Fault];
                proof {
                    assert(effects(acts@) =~= leave_spec(v0, id_text@).1);
                }
                return acts;
            },
            Some(n) => n,
        };
        match self.group_with(h) {
            None => {
                let acts = vec![Action::Reply(String::from_str(".info No estas en un grupo"))];
                proof {
                    assert(effects(acts@) =~= leave_spec(v0, id_text@).1);
                }
                acts
            },
            Some(i) => {
                let rest = self.leave_group_at(i, h);
                let mut acts = vec![Action::ReplyQuiet(String::from_str(".info Has salido del grupo"))];
                let t = concat_text(nick.as_str(), " ha salido del grupo");
                let mut ns = notices(&rest, &t);
                let ghost a0 = acts@;
                let ghost n0 = ns@;
                acts.append(&mut ns);
                proof {
                    assert(acts@ == a0 + n0);
                    assert(effects(acts@) =~= effects(a0) + effects(n0));
                    assert(effects(acts@) =~= leave_spec(v0, id_text@).1);
                    assert(self@ == leave_spec(v0, id_text@).0);
                }
                acts
            },
        }
    }

    /// `id .quit`.
    fn quit(&mut self, id_text: &String) -> (acts: Vec<Action>)
        requires
            old(self).wf(),
        ensures
            final(self).wf(),
            final(self)@ == quit_spec(old(self)@, id_text@).0,
            effects(acts@) == quit_spec(old(self)@, id_text@).1,
    {
        let ghost v0 = self@;
        let h = match parse_u64(id_text.as_str()) {
            None => {
                let acts = vec![Action::Fault];
                proof {
                    assert(effects(acts@) =~= quit_spec(v0, id_text@).1);
                }
                return acts;
            },
            Some(h) => h,
        };
        match self.group_with(h) {
            None => {
                let acts = vec![Action::Close];
                proof {
                    assert(effects(acts@) =~= quit_spec(v0, id_text@).1);
                }
                acts
            },
            Some(i) => {
                let gname = self.groups[i].name.clone();
                let rest = self.leave_group_at(i, h);
                if rest.len() == 0 {
                    let acts: Vec<Action> = Vec::new();
                    proof {
                        assert(effects(acts@) =~= quit_spec(v0, id_text@).1);
                    }
                    return acts;
                }
                match self.nickname(h) {
                    None => {
                        let acts = vec![Action::Fault];
                        proof {
                            assert(effects(acts@) =~= quit_spec(v0, id_text@).1);
                        }
                        acts
                    },
                    Some(nick) => {
                        let mut t = concat_text(nick.as_str(), " se ha ido del grupo ");
                        t.append(gname.as_str());
                        let acts = notices(&rest, &t);
                        proof {
                            assert(effects(acts@) =~= quit_spec(v0, id_text@).1);
                        }
                        acts
                    },
                }
            },
        }
    }

    /// Any other message `id text`, received as `msg`, which decodes to `text`.
    fn say(&self, msg: &[u8], text: &String, id_text: &String) -> (acts: Vec<Action>)
        requires
            self.wf(),
            valid_utf8(msg@),
            text@ == decode_utf8(msg@),
        ensures
            effects(acts@) == say_spec(self@, msg@, id_text@).1,
            say_spec(self@, msg@, id_text@).0 == self@,
    {
        let ghost v0 = self@;
        let ghost k = encode_utf8(id_text@).len() + 1int;
        proof {
            vstd::utf8::decode_utf8_encode_utf8(msg@);
            assert(encode_utf8(text@) == msg@);
        }
        let blen = id_text.as_str().as_bytes().len();
        if blen >= msg.len() {
            proof {
                assert(!is_char_boundary(msg@, k));
            }
            let acts = vec![Action::Fault];
            proof {
                assert(effects(acts@) =~= say_spec(v0, msg@, id_text@).1);
            }
            return acts;
        }
        let cut = blen + 1;
        if !text.as_str().is_char_boundary(cut) {
            let acts = vec![Action::Fault];
            proof {
                assert(effects(acts@) =~= say_spec(v0, msg@, id_text@).1);
            }
            return acts;
        }
        let (_, tail) = text.as_str().split_at(cut);
        let body = String::from_str(tail);
        proof {
            vstd::utf8::encode_utf8_decode_utf8(tail@);
            assert(body@ == decode_utf8(msg@.subrange(k, msg@.len() as int)));
        }
        let h = match parse_u64(id_text.as_str()) {
            None => {
                let acts = vec![Action::Fault];
                proof {
                    assert(effects(acts@) =~= say_spec(v0, msg@, id_text@).1);
                }
                return acts;
            },
            Some(h) => h,
        };
        let nick = match self.nickname(h) {
            None => {
                let acts = vec![Action::Fault];
                proof {
                    assert(effects(acts@) =~= say_spec(v0, msg@, id_text@).1);
                }
                return acts;
            },
            Some(n) => n,
        };
        match self.group_with(h) {
            None => {
                let acts = vec![
                    Action::Reply(
                        String::from_str(".info Para mandar un mensaje debes estar en un grupo"),
                    ),
                ];
                proof {
                    assert(effects(acts@) =~= say_spec(v0, msg@, id_text@).1);
                }
                acts
            },
            Some(i) => {
                let others = ids_without(&self.groups[i].members, h);
                let mut t = concat_text(nick.as_str(), ": ");
                t.append(body.as_str());
                let acts = notices(&others, &t);
                proof {
                    assert(effects(acts@) =~= say_spec(v0, msg@, id_text@).1);
                }
                acts
            },
        }
    }

    /// The answer to `.list`.
    fn list_reply(&self) -> (r: String)
        ensures
            r@ == list_text(self@.groups),
    {
        let n = self.groups.len();
        if n == 0 {
            return String::from_str(".info Lista de grupos: (vacia)");
        }
        let mut names: Vec<String> = Vec::new();
        for i in 0..n
            invariant
                n == self@.groups.len(),
                texts(names@) == group_names(self@.groups).take(i as int),
        {
            let ghost old_names = names@;
            let nm = self.groups[i].name.clone();
            names.push(nm);
            proof {
                let gn = group_names(self@.groups);
                assert(nm@ == self@.groups[i as int].0);
                assert(gn[i as int] == nm@);
                assert(names@ == old_names.push(nm));
                assert(texts(old_names).len() == i);
                assert forall|k: int| 0 <= k < i + 1 implies #[trigger] texts(names@)[k] == gn.take(
                    i + 1,
                )[k] by {
                    if k < i {
                        assert(texts(old_names)[k] == gn.take(i as int)[k]);
                    }
                }
                assert(texts(names@) =~= group_names(self@.groups).take(i + 1));
            }
        }
        proof {
            assert(group_names(self@.groups).take(n as int) =~= group_names(self@.groups));
        }
        sort_texts(&mut names);
        proof {
            let ns = texts(names@);
            let gn = group_names(self@.groups);
            assert(sorted_texts(ns) && ns.to_multiset() == gn.to_multiset());
            let chosen = in_order(gn);
            lemma_text_order_antisymmetric();
            lemma_sorted_unique(chosen, ns, text_order());
            assert(chosen == ns);
        }
        let mut r = String::from_str(".info Lista de grupos: ");
        let m = names.len();
        for i in 0..m
            invariant
                m == names@.len(),
                m == n,
                n > 0,
                r@ == ".info Lista de grupos: "@ + join_texts(texts(names@).take(i as int), ", "@),
        {
            proof {
                let ns = texts(names@);
                assert(ns.take(i + 1).drop_last() =~= ns.take(i as int));
                if i == 0 {
                    assert(ns.take(0) =~= Seq::<Seq<char>>::empty());
                }
            }
            if i > 0 {
                r.append(", ");
            }
            r.append(names[i].as_str());
            proof {
                let ns = texts(names@);
                if i == 0 {
                    assert(join_texts(ns.take(1), ", "@) == ns[0]);
                    assert(r@ =~= ".info Lista de grupos: "@ + join_texts(ns.take(1), ", "@));
                } else {
                    assert(r@ =~= ".info Lista de grupos: "@ + join_texts(ns.take(i + 1), ", "@));
                }
            }
        }
        proof {
            assert(texts(names@).take(m as int) =~= texts(names@));
        }
        r
    }

    /// Serves one message `msg` received on a connection: updates the state
    /// and says what the connection must do, as `handle_spec` describes.
    pub fn handle_message(&mut self, msg: &[u8]) -> (acts: Vec<Action>)
        requires
            old(self).wf(),
        ensures
            final(self).wf(),
            final(self)@ == handle_spec(old(self)@, msg@).0,
            effects(acts@) == handle_spec(old(self)@, msg@).1,
    {
        let ghost v0 = self@;
        let text = match decode_bytes(msg) {
            None => {
                let acts = vec![Action::Fault];
                proof {
                    assert(effects(acts@) =~= handle_spec(v0, msg@).1);
                }
                return acts;
            },
            Some(t) => t,
        };
        let w = split_words(text.as_str());
        if w.len() == 2 && text_is(&w[0], ".newuser") {
            return self.new_user(&w[1]);
        }
        if w.len() == 2 && text_is(&w[1], ".list") {
            let acts = vec![Action::Reply(self.list_reply())];
            proof {
                assert(effects(acts@) =~= handle_spec(v0, msg@).1);
            }
            return acts;
        }
        if w.len() == 3 && text_is(&w[1], ".create") {
            return self.create(&w[2]);
        }
        if w.len() == 3 && text_is(&w[1], ".join") {
            return self.join(&w[0], &w[2]);
        }
        if w.len() == 2 && text_is(&w[1], ".leave") {
            return self.leave(&w[0]);
        }
        if w.len() == 2 && text_is(&w[1], ".quit") {
            return self.quit(&w[0]);
        }
        if w.len() >= 1 {
            return self.say(msg, &text, &w[0]);
        }
        let acts = vec![Action::Close];
        proof {
            assert(effects(acts@) =~= handle_spec(v0, msg@).1);
        }
        acts
    }
}

/// The command words are different texts.
proof fn lemma_command_words_differ()
    ensures
        ".newuser"@ != ".list"@,
        ".list"@ != ".create"@,
        ".list"@ != ".join"@,
        ".list"@ != ".leave"@,
        ".list"@ != ".quit"@,
        ".create"@ != ".join"@,
        ".leave"@ != ".quit"@,
{
    reveal_strlit(".newuser");
    reveal_strlit(".list");
    reveal_strlit(".create");
    reveal_strlit(".join");
    reveal_strlit(".leave");
    reveal_strlit(".quit");
    assert(".newuser"@.len() != ".list"@.len());
    assert(".list"@[1] != ".create"@[1]);
    assert(".list"@[1] != ".join"@[1]);
    assert(".list"@[2] != ".leave"@[2]);
    assert(".list"@[1] != ".quit"@[1]);
    assert(".create"@[1] != ".join"@[1]);
    assert(".leave"@[1] != ".quit"@[1]);
}

/// A text that reads as a number is not the word `.newuser`.
proof fn lemma_id_is_not_newuser(id_text: Seq<char>)
    requires
        parse_u64_spec(id_text) is Some,
    ensures
        id_text != ".newuser"@,
{
    reveal_strlit(".newuser");
    if id_text == ".newuser"@ {
        assert(!('0' <= id_text[0] <= '9'));
        assert(id_text[0] != '+');
    }
}

/// `.newuser nick`: refused exactly when a registered user already has the
/// nickname `nick`; otherwise the user is filed under the hash of `nick`, the
/// connection is registered under that id and the answer carries the id.
pub proof fn lemma_new_user_law(v: ChatView, msg: Seq<u8>, nick: Seq<char>)
    requires
        valid_utf8(msg),
        words(decode_utf8(msg)) == seq![".newuser"@, nick],
    ensures
        (exists|k: u64| v.users.contains_key(k) && v.users[k] == nick) ==> handle_spec(v, msg) == (
            v,
            seq![Effect::Reply(".reject "@ + nick)],
        ),
        !(exists|k: u64| v.users.contains_key(k) && v.users[k] == nick) ==> {
            let h = string_hash(nick);
            &&& handle_spec(v, msg).0.users == v.users.insert(h, nick)
            &&& handle_spec(v, msg).0.groups == v.groups
            &&& handle_spec(v, msg).1 == seq![
                Effect::Register(h),
                Effect::Reply(".accept "@ + nick + " "@ + decimal_text(h as nat)),
            ]
        },
{
}

/// `id .join name` by a user in no group, where the group at position `i` is
/// called `name`: that group, and no other, gains the user as its last member,
/// and the user is told so.
pub proof fn lemma_join_law(
    v: ChatView,
    msg: Seq<u8>,
    id_text: Seq<char>,
    name: Seq<char>,
    h: u64,
    i: int,
)
    requires
        chat_wf(v),
        valid_utf8(msg),
        words(decode_utf8(msg)) == seq![id_text, ".join"@, name],
        parse_u64_spec(id_text) == Some(h),
        forall|j: int| 0 <= j < v.groups.len() ==> !(#[trigger] v.groups[j]).1.contains(h),
        0 <= i < v.groups.len(),
        v.groups[i].0 == name,
    ensures
        handle_spec(v, msg).0.users == v.users,
        handle_spec(v, msg).0.groups.len() == v.groups.len(),
        handle_spec(v, msg).0.groups[i] == (name, v.groups[i].1.push(h)),
        forall|j: int|
            0 <= j < v.groups.len() && j != i ==> #[trigger] handle_spec(v, msg).0.groups[j]
                == v.groups[j],
        forall|j: int|
            0 <= j < v.groups.len() ==> (#[trigger] handle_spec(v, msg).0.groups[j]).1.contains(h)
                == (j == i),
        handle_spec(v, msg).1 == seq![Effect::Reply(".info Te has unido al grupo "@ + name)],
{
    lemma_command_words_differ();
    lemma_id_is_not_newuser(id_text);
    assert(has_group(v.groups, name));
    let k = group_named(v.groups, name);
    assert(k == i);
    assert(!in_a_group(v.groups, h));
    let g2 = handle_spec(v, msg).0.groups;
    assert(g2 == v.groups.update(i, (name, v.groups[i].1.push(h))));
    assert forall|j: int| 0 <= j < v.groups.len() implies (#[trigger] g2[j]).1.contains(h) == (j
        == i) by {
        if j == i {
            assert(g2[j].1[v.groups[i].1.len() as int] == h);
        }
    }
}

/// `id .leave` by a registered user who is in the group at position `i`: the
/// user leaves that group, keeps the connection quietly told, and every member
/// left in the group, in order, gets one notice that the user has left.
pub proof fn lemma_leave_law(v: ChatView, msg: Seq<u8>, id_text: Seq<char>, h: u64, i: int)
    requires
        chat_wf(v),
        valid_utf8(msg),
        words(decode_utf8(msg)) == seq![id_text, ".leave"@],
        parse_u64_spec(id_text) == Some(h),
        v.users.contains_key(h),
        0 <= i < v.groups.len(),
        v.groups[i].1.contains(h),
    ensures
        ({
            let rest = without(v.groups[i].1, h);
            let out = handle_spec(v, msg);
            &&& forall|x: u64| #[trigger] rest.contains(x) <==> (v.groups[i].1.contains(x) && x != h)
            &&& out.0.users == v.users
            &&& out.0.groups == v.groups.update(i, (v.groups[i].0, rest))
            &&& out.1.len() == rest.len() + 1
            &&& out.1[0] == Effect::ReplyQuiet(".info Has salido del grupo"@)
            &&& forall|k: int|
                0 <= k < rest.len() ==> #[trigger] out.1[k + 1] == Effect::Notify(
                    rest[k],
                    v.users[h] + " ha salido del grupo"@,
                )
        }),
{
    lemma_command_words_differ();
    lemma_id_is_not_newuser(id_text);
    lemma_without(v.groups[i].1, h);
    assert(in_a_group(v.groups, h));
    let k = group_of(v.groups, h);
    assert(k == i);
}

/// `id .quit` by a registered user who is in the group at position `i` with
/// other members: the user leaves that group, the connection stays open, and
/// every member left in the group, in order, gets one notice naming the user
/// and the group.
pub proof fn lemma_quit_law(v: ChatView, msg: Seq<u8>, id_text: Seq<char>, h: u64, i: int)
    requires
        chat_wf(v),
        valid_utf8(msg),
        words(decode_utf8(msg)) == seq![id_text, ".quit"@],
        parse_u64_spec(id_text) == Some(h),
        v.users.contains_key(h),
        0 <= i < v.groups.len(),
        v.groups[i].1.contains(h),
        exists|x: u64| v.groups[i].1.contains(x) && x != h,
    ensures
        ({
            let rest = without(v.groups[i].1, h);
            let out = handle_spec(v, msg);
            &&& forall|x: u64| #[trigger] rest.contains(x) <==> (v.groups[i].1.contains(x) && x != h)
            &&& out.0.users == v.users
            &&& out.0.groups == v.groups.update(i, (v.groups[i].0, rest))
            &&& out.1.len() == rest.len()
            &&& forall|k: int|
                0 <= k < rest.len() ==> #[trigger] out.1[k] == Effect::Notify(
                    rest[k],
                    v.users[h] + " se ha ido del grupo "@ + v.groups[i].0,
                )
        }),
{
    lemma_command_words_differ();
    lemma_id_is_not_newuser(id_text);
    lemma_without(v.groups[i].1, h);
    assert(in_a_group(v.groups, h));
    let k = group_of(v.groups, h);
    assert(k == i);
    let rest = without(v.groups[i].1, h);
    let x = choose|x: u64| v.groups[i].1.contains(x) && x != h;
    assert(rest.contains(x));
    assert(rest.len() > 0);
}

} // verus!
