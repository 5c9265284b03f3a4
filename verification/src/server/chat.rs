//! Chat rooms: which socket is in which room, who is behind each socket,
//! and where messages go.
use std::collections::HashMap;
use vstd::prelude::*;

use crate::server::websocket::{copy_message, message_view, Message, WsEvent, WsSender};
use crate::strmap::StrMap;
use crate::text::{chars_of, parse_usize, parse_usize_chars};

verus! {

broadcast use vstd::std_specs::hash::group_hash_axioms;

/// The members of a room without `s`.
pub open spec fn without(m: Seq<usize>, s: usize) -> Seq<usize> {
    m.filter(|x: usize| x != s)
}

/// The rooms, the user behind each socket, the room of each socket and the
/// channel to each socket.
pub struct ChatState {
    chats: HashMap<usize, Vec<usize>>,
    users: HashMap<usize, usize>,
    socket_to_chat: HashMap<usize, usize>,
    senders: HashMap<usize, WsSender>,
}

impl ChatState {
    /// The members of each room, in the order they joined.
    pub closed spec fn rooms(&self) -> Map<usize, Seq<usize>> {
        self.chats@.map_values(|v: Vec<usize>| v@)
    }

    /// The user behind each socket.
    pub closed spec fn user_of(&self) -> Map<usize, usize> {
        self.users@
    }

    /// The room of each socket.
    pub closed spec fn room_of(&self) -> Map<usize, usize> {
        self.socket_to_chat@
    }

    /// The sender of each socket's channel.
    pub closed spec fn senders_map(&self) -> Map<usize, WsSender> {
        self.senders@
    }

    /// The sockets that have a channel.
    pub open spec fn connected(&self) -> Set<usize> {
        self.senders_map().dom()
    }

    /// What has been handed to a socket's channel, oldest first (nothing,
    /// for a socket without one).
    pub open spec fn handed(&self, s: usize) -> Seq<(u8, Seq<u8>)> {
        if self.senders_map().contains_key(s) {
            self.senders_map()[s].handed()
        } else {
            Seq::empty()
        }
    }

    /// No room lists a member twice; every operation keeps this.
    pub open spec fn rooms_distinct(&self) -> bool {
        forall|c: usize| #[trigger] self.rooms().contains_key(c) ==> self.rooms()[c].no_duplicates()
    }

    /// Whether a socket is known.
    pub open spec fn registered(&self, s: usize) -> bool {
        self.room_of().contains_key(s)
    }

    /// The registry is consistent: a socket's room lists it, every member
    /// of a room has that room, rooms are not empty and list each member
    /// once, and the same sockets have a user, a room and a channel.
    pub open spec fn wf(&self) -> bool {
        &&& forall|s: usize| #[trigger]
            self.room_of().contains_key(s) ==> self.rooms().contains_key(self.room_of()[s])
                && self.rooms()[self.room_of()[s]].contains(s)
        &&& forall|c: usize, s: usize|
            self.rooms().contains_key(c) && #[trigger] self.rooms()[c].contains(s)
                ==> self.room_of().contains_key(s) && self.room_of()[s] == c
        &&& forall|c: usize| #[trigger]
            self.rooms().contains_key(c) ==> self.rooms()[c].len() > 0
                && self.rooms()[c].no_duplicates()
        &&& self.user_of().dom() == self.room_of().dom()
        &&& self.connected() == self.room_of().dom()
    }

    /// The rooms after `s` joins room `c`.
    pub open spec fn joined(&self, c: usize, s: usize) -> Map<usize, Seq<usize>> {
        self.rooms().insert(
            c,
            if !self.rooms().contains_key(c) {
                seq![s]
            } else if self.rooms()[c].contains(s) {
                self.rooms()[c]
            } else {
                self.rooms()[c].push(s)
            },
        )
    }

    /// The rooms after `s` leaves its room; a room left empty goes away.
    pub open spec fn left(&self, s: usize) -> Map<usize, Seq<usize>> {
        if self.room_of().contains_key(s) && self.rooms().contains_key(self.room_of()[s]) {
            let c = self.room_of()[s];
            let rest = without(self.rooms()[c], s);
            if rest.len() == 0 {
                self.rooms().remove(c)
            } else {
                self.rooms().insert(c, rest)
            }
        } else {
            self.rooms()
        }
    }

    /// An empty registry.
    pub fn new() -> (r: Self)
        ensures
            r.wf(),
            r.rooms() == Map::<usize, Seq<usize>>::empty(),
            r.user_of() == Map::<usize, usize>::empty(),
            r.room_of() == Map::<usize, usize>::empty(),
            r.senders_map() == Map::<usize, WsSender>::empty(),
            r.rooms_distinct(),
    {
        let r = ChatState {
            chats: HashMap::new(),
            users: HashMap::new(),
            socket_to_chat: HashMap::new(),
            senders: HashMap::new(),
        };
        assert(r.rooms() =~= Map::<usize, Seq<usize>>::empty());
        r
    }

    /// Puts a socket in a room, for a user, with its channel.
    pub fn connect(&mut self, chat_id: usize, socket_id: usize, user_id: usize, sender: WsSender)
        ensures
            final(self).rooms() == old(self).joined(chat_id, socket_id),
            final(self).user_of() == old(self).user_of().insert(socket_id, user_id),
            final(self).room_of() == old(self).room_of().insert(socket_id, chat_id),
            final(self).senders_map() == old(self).senders_map().insert(socket_id, sender),
            old(self).rooms_distinct() ==> final(self).rooms_distinct(),
    {
        let ghost old_rooms = self.rooms();
        let ghost old_chats = self.chats@;
        let members = match self.chats.remove(&chat_id) {
            Some(m) => {
                assert(old_chats.contains_key(chat_id) && old_chats[chat_id] == m);
                assert(old_rooms.contains_key(chat_id) && old_rooms[chat_id] == m@);
                let mut m = m;
                if !contains(&m, socket_id) {
                    let ghost m0 = m@;
                    m.push(socket_id);
                    proof {
                        if m0.no_duplicates() {
                            assert forall|i: int, j: int|
                                0 <= i < m@.len() && 0 <= j < m@.len() && i != j implies m@[i]
                                != m@[j] by {
                                if i == m0.len() {
                                    assert(m0.contains(m0[j]));
                                } else if j == m0.len() {
                                    assert(m0.contains(m0[i]));
                                }
                            }
                        }
                    }
                }
                m
            },
            None => {
                assert(!old_rooms.contains_key(chat_id));
                let v = vec![socket_id];
                assert(v@ =~= seq![socket_id]);
                assert(v@.no_duplicates());
                v
            },
        };
        let ghost mv = members@;
        self.chats.insert(chat_id, members);
        assert(self.rooms() =~= old_rooms.insert(chat_id, mv));
        self.users.insert(socket_id, user_id);
        self.socket_to_chat.insert(socket_id, chat_id);
        self.senders.insert(socket_id, sender);
    }

    /// Whether a message from `sender` goes to member `m`: `m` is another
    /// socket and has a channel.
    pub open spec fn relays_to(&self, sender: usize) -> spec_fn(usize) -> bool {
        |m: usize| m != sender && self.connected().contains(m)
    }

    /// The sockets that a message from `sender` to room `chat_id` goes to:
    /// the other members of the room that have a channel, in the order they
    /// joined.
    pub open spec fn recipients_of(&self, chat_id: usize, sender: usize) -> Seq<usize> {
        if self.rooms().contains_key(chat_id) {
            self.rooms()[chat_id].filter(self.relays_to(sender))
        } else {
            Seq::<usize>::empty()
        }
    }

    /// The members of `chat_id` other than `sender_socket_id` that have a
    /// channel, in the order they joined.
    pub fn recipients(&self, chat_id: usize, sender_socket_id: usize) -> (r: Vec<usize>)
        ensures
            r@ == self.recipients_of(chat_id, sender_socket_id),
    {
        let mut out: Vec<usize> = Vec::new();
        match self.chats.get(&chat_id) {
            Some(members) => {
                let ghost ms = members@;
                let ghost f = self.relays_to(sender_socket_id);
                assert(ms.take(0) =~= Seq::<usize>::empty());
                let mut i: usize = 0;
                while i < members.len()
                    invariant
                        0 <= i <= members.len(),
                        ms == members@,
                        f == self.relays_to(sender_socket_id),
                        out@ == ms.take(i as int).filter(f),
                    decreases members.len() - i,
                {
                    let m = members[i];
                    proof {
                        reveal(Seq::filter);
                        assert(ms.take(i + 1).drop_last() =~= ms.take(i as int));
                    }
                    if m != sender_socket_id && self.senders.contains_key(&m) {
                        out.push(m);
                    }
                    i += 1;
                }
                assert(ms.take(members.len() as int) =~= ms);
                assert(self.rooms()[chat_id] == ms);
            },
            None => {},
        }
        out
    }

    /// Hands a copy of `msg` to the channel of every other member of the
    /// room that has one, in the order they joined, and gives back those
    /// sockets. Each of them has the message handed to it once; no other
    /// channel is handed anything, and the rooms and users do not change.
    pub fn send_message(&mut self, chat_id: usize, sender_socket_id: usize, msg: Message) -> (r:
        Vec<usize>)
        requires
            old(self).rooms_distinct(),
        ensures
            r@ == old(self).recipients_of(chat_id, sender_socket_id),
            final(self).rooms() == old(self).rooms(),
            final(self).user_of() == old(self).user_of(),
            final(self).room_of() == old(self).room_of(),
            final(self).connected() == old(self).connected(),
            forall|s: usize| #[trigger]
                final(self).connected().contains(s) ==> final(self).senders_map()[s].channel()
                    == old(self).senders_map()[s].channel(),
            forall|s: usize| #[trigger]
                final(self).handed(s) == old(self).handed(s) + (if r@.contains(s) {
                    seq![message_view(msg)]
                } else {
                    Seq::<(u8, Seq<u8>)>::empty()
                }),
    {
        let ghost pre = *self;
        let targets = self.recipients(chat_id, sender_socket_id);
        assert forall|j: int| 0 <= j < targets.len() implies pre.connected().contains(
            #[trigger] targets@[j],
        ) by {
            self.rooms()[chat_id].lemma_filter_pred(self.relays_to(sender_socket_id), j);
        }
        proof {
            if self.rooms().contains_key(chat_id) {
                lemma_filter_no_dup(self.rooms()[chat_id], self.relays_to(sender_socket_id));
            }
        }
        let mut offered: Vec<usize> = Vec::new();
        let mut i: usize = 0;
        assert(targets@.take(0) =~= Seq::<usize>::empty());
        while i < targets.len()
            invariant
                0 <= i <= targets.len(),
                targets@.no_duplicates(),
                forall|j: int| 0 <= j < targets.len() ==> pre.connected().contains(#[trigger] targets@[j]),
                offered@ == targets@.take(i as int),
                self.rooms() == pre.rooms(),
                self.user_of() == pre.user_of(),
                self.room_of() == pre.room_of(),
                self.connected() == pre.connected(),
                forall|s: usize| #[trigger]
                    self.connected().contains(s) ==> self.senders_map()[s].channel()
                        == pre.senders_map()[s].channel(),
                forall|s: usize| #[trigger]
                    self.handed(s) == pre.handed(s) + (if targets@.take(i as int).contains(s) {
                        seq![message_view(msg)]
                    } else {
                        Seq::<(u8, Seq<u8>)>::empty()
                    }),
            decreases targets.len() - i,
        {
            let t = targets[i];
            assert(pre.connected().contains(targets@[i as int]));
            let ghost before = *self;
            assert(!targets@.take(i as int).contains(t)) by {
                let p0 = targets@.take(i as int);
                if p0.contains(t) {
                    let k = choose|k: int| 0 <= k < p0.len() && p0[k] == t;
                    assert(targets@[k] == targets@[i as int]);
                }
            }
            match self.senders.remove(&t) {
                Some(w) => {
                    let mut w = w;
                    let m = copy_message(&msg);
                    let _ = w.send(m);
                    self.senders.insert(t, w);
                    offered.push(t);
                },
                None => {},
            }
            assert(targets@.take(i + 1) =~= targets@.take(i as int).push(t));
            assert(self.senders_map() == before.senders_map().insert(
                t,
                self.senders_map()[t],
            ));
            assert forall|s: usize| #[trigger]
                self.handed(s) == pre.handed(s) + (if targets@.take(i + 1).contains(s) {
                    seq![message_view(msg)]
                } else {
                    Seq::<(u8, Seq<u8>)>::empty()
                }) by {
                if s == t {
                    assert(targets@.take(i + 1).contains(t)) by {
                        assert(targets@.take(i + 1)[i as int] == t);
                    }
                    assert(self.handed(t) == before.handed(t).push(message_view(msg)));
                    assert(before.handed(t) == pre.handed(t) + Seq::<(u8, Seq<u8>)>::empty());
                    assert(pre.handed(t) + Seq::<(u8, Seq<u8>)>::empty() =~= pre.handed(t));
                    assert(pre.handed(t).push(message_view(msg)) =~= pre.handed(t) + seq![
                        message_view(msg),
                    ]);
                } else {
                    assert(self.handed(s) == before.handed(s));
                    assert(targets@.take(i + 1).contains(s) == targets@.take(i as int).contains(s))
                        by {
                        let p0 = targets@.take(i as int);
                        let p1 = targets@.take(i + 1);
                        if p1.contains(s) {
                            let k = choose|k: int| 0 <= k < p1.len() && p1[k] == s;
                            assert(p0[k] == s);
                        }
                        if p0.contains(s) {
                            let k = choose|k: int| 0 <= k < p0.len() && p0[k] == s;
                            assert(p1[k] == s);
                        }
                    }
                }
            }
            i += 1;
        }
        assert(targets@.take(targets.len() as int) =~= targets@);
        offered
    }

    /// Forgets a socket: its user, its channel and its room; a room left
    /// empty goes away.
    pub fn unregister(&mut self, socket_id: usize)
        ensures
            final(self).user_of() == old(self).user_of().remove(socket_id),
            final(self).room_of() == old(self).room_of().remove(socket_id),
            final(self).senders_map() == old(self).senders_map().remove(socket_id),
            final(self).rooms() == old(self).left(socket_id),
            old(self).rooms_distinct() ==> final(self).rooms_distinct(),
    {
        let ghost old_rooms = self.rooms();
        self.users.remove(&socket_id);
        self.senders.remove(&socket_id);
        match self.socket_to_chat.remove(&socket_id) {
            Some(chat_id) => {
                match self.chats.remove(&chat_id) {
                    Some(members) => {
                        let rest = remove_member(&members, socket_id);
                        proof {
                            if members@.no_duplicates() {
                                lemma_without_no_dup(members@, socket_id);
                            }
                        }
                        if rest.len() > 0 {
                            let ghost rv = rest@;
                            self.chats.insert(chat_id, rest);
                            assert(self.rooms() =~= old_rooms.insert(chat_id, rv));
                        } else {
                            assert(self.rooms() =~= old_rooms.remove(chat_id));
                        }
                    },
                    None => {
                        assert(self.rooms() =~= old_rooms);
                    },
                }
            },
            None => {},
        }
    }
}

/// Whether `v` holds `x`.
fn contains(v: &Vec<usize>, x: usize) -> (r: bool)
    ensures
        r == v@.contains(x),
{
    let mut i: usize = 0;
    while i < v.len()
        invariant
            0 <= i <= v.len(),
            forall|j: int| 0 <= j < i ==> v@[j] != x,
        decreases v.len() - i,
    {
        if v[i] == x {
            return true;
        }
        i += 1;
    }
    false
}

/// The members without `x`, in the same order.
fn remove_member(v: &Vec<usize>, x: usize) -> (r: Vec<usize>)
    ensures
        r@ == without(v@, x),
{
    let mut out: Vec<usize> = Vec::new();
    let mut i: usize = 0;
    assert(v@.take(0) =~= Seq::<usize>::empty());
    while i < v.len()
        invariant
            0 <= i <= v.len(),
            out@ == without(v@.take(i as int), x),
        decreases v.len() - i,
    {
        proof {
            reveal(Seq::filter);
            assert(v@.take(i + 1).drop_last() =~= v@.take(i as int));
        }
        if v[i] != x {
            out.push(v[i]);
        }
        i += 1;
    }
    assert(v@.take(v.len() as int) =~= v@);
    out
}

/// The number that a query parameter holds, if it is there and is one.
pub open spec fn param_number(q: Map<Seq<char>, Seq<char>>, key: Seq<char>) -> Option<nat> {
    if q.contains_key(key) {
        parse_usize(q[key])
    } else {
        None
    }
}

fn query_number(q: &StrMap, key: &str) -> (r: Option<usize>)
    requires
        q.wf(),
    ensures
        match param_number(q@, key@) {
            Some(n) => r == Some(n as usize),
            None => r is None,
        },
{
    match q.get(key) {
        Some(v) => {
            let cs = chars_of(v.as_str());
            parse_usize_chars(cs.as_slice())
        },
        None => None,
    }
}

/// What one event did to a connection.
#[derive(Debug, Clone, PartialEq, Eq)]
pub enum ChatStep {
    /// The socket joined a room for a user.
    Connected { socket_id: usize, user_id: usize, chat_id: usize },
    /// The socket's parameters were missing or not numbers; the connection ends.
    Rejected { socket_id: usize },
    /// A message was offered to these sockets of the room (none before a connect).
    Relayed { to: Vec<usize> },
    /// The connection ended.
    Disconnected,
}

/// One connection's place in the chat: its socket and room once connected.
pub struct ChatSession {
    pub socket_id: Option<usize>,
    pub chat_id: Option<usize>,
}

impl ChatSession {
    pub fn new() -> (r: Self)
        ensures
            r.socket_id is None,
            r.chat_id is None,
    {
        ChatSession { socket_id: None, chat_id: None }
    }

    /// Handles one event of the connection. A connect event with numeric
    /// `chat_id` and `user_id` query parameters joins the room; otherwise
    /// the connection is rejected. A message goes to the rest of the room
    /// once connected. A disconnect forgets the socket.
    pub fn on_event(&mut self, state: &mut ChatState, event: WsEvent) -> (r: ChatStep)
        requires
            handshake_ok(event),
            old(state).rooms_distinct(),
        ensures
            final(state).rooms_distinct(),
            match event {
                WsEvent::Connect { socket_id, handshake, sender } => match (
                    param_number(handshake.query_params@, "chat_id"@),
                    param_number(handshake.query_params@, "user_id"@),
                ) {
                    (Some(c), Some(u)) => {
                        &&& r == ChatStep::Connected {
                            socket_id,
                            user_id: u as usize,
                            chat_id: c as usize,
                        }
                        &&& final(self).socket_id == Some(socket_id)
                        &&& final(self).chat_id == Some(c as usize)
                        &&& final(state).room_of() == old(state).room_of().insert(
                            socket_id,
                            c as usize,
                        )
                        &&& final(state).user_of() == old(state).user_of().insert(
                            socket_id,
                            u as usize,
                        )
                        &&& final(state).rooms() == old(state).joined(c as usize, socket_id)
                        &&& final(state).senders_map() == old(state).senders_map().insert(
                            socket_id,
                            sender,
                        )
                    },
                    _ => r == ChatStep::Rejected { socket_id } && *final(self) == *old(self)
                        && *final(state) == *old(state),
                },
                WsEvent::Message(m) => {
                    &&& *final(self) == *old(self)
                    &&& r matches ChatStep::Relayed { to } && to@ == match (
                        old(self).socket_id,
                        old(self).chat_id,
                    ) {
                        (Some(s), Some(c)) => old(state).recipients_of(c, s),
                        _ => Seq::<usize>::empty(),
                    }
                    &&& final(state).rooms() == old(state).rooms()
                    &&& final(state).user_of() == old(state).user_of()
                    &&& final(state).room_of() == old(state).room_of()
                    &&& final(state).connected() == old(state).connected()
                    &&& forall|s: usize| #[trigger]
                        final(state).handed(s) == old(state).handed(s) + (if relayed_to(r).contains(
                            s,
                        ) {
                            seq![message_view(m)]
                        } else {
                            Seq::<(u8, Seq<u8>)>::empty()
                        })
                },
                WsEvent::Disconnect => {
                    &&& r == ChatStep::Disconnected
                    &&& *final(self) == *old(self)
                    &&& match old(self).socket_id {
                        Some(s) => {
                            &&& final(state).room_of() == old(state).room_of().remove(s)
                            &&& final(state).user_of() == old(state).user_of().remove(s)
                            &&& final(state).rooms() == old(state).left(s)
                            &&& final(state).senders_map() == old(state).senders_map().remove(s)
                        },
                        None => *final(state) == *old(state),
                    }
                },
            },
    {
        match event {
            WsEvent::Connect { socket_id, handshake, sender } => {
                let chat_id = query_number(&handshake.query_params, "chat_id");
                let user_id = query_number(&handshake.query_params, "user_id");
                match (chat_id, user_id) {
                    (Some(chat_id), Some(user_id)) => {
                        self.socket_id = Some(socket_id);
                        self.chat_id = Some(chat_id);
                        state.connect(chat_id, socket_id, user_id, sender);
                        ChatStep::Connected { socket_id, user_id, chat_id }
                    },
                    _ => ChatStep::Rejected { socket_id },
                }
            },
            WsEvent::Message(msg) => {
                let to = match (self.socket_id, self.chat_id) {
                    (Some(socket_id), Some(chat_id)) => state.send_message(chat_id, socket_id, msg),
                    _ => {
                        let none: Vec<usize> = Vec::new();
                        assert forall|s: usize| #[trigger]
                            state.handed(s) == state.handed(s) + Seq::<(u8, Seq<u8>)>::empty() by {
                            assert(state.handed(s) + Seq::<(u8, Seq<u8>)>::empty() =~= state.handed(s));
                        }
                        none
                    },
                };
                ChatStep::Relayed { to }
            },
            WsEvent::Disconnect => {
                match self.socket_id {
                    Some(socket_id) => state.unregister(socket_id),
                    None => {},
                }
                ChatStep::Disconnected
            },
        }
    }
}

/// The sockets that a step relayed a message to (none for other steps).
pub open spec fn relayed_to(step: ChatStep) -> Seq<usize> {
    match step {
        ChatStep::Relayed { to } => to@,
        _ => Seq::<usize>::empty(),
    }
}

/// A connect event's query parameters are well formed.
pub open spec fn handshake_ok(event: WsEvent) -> bool {
    match event {
        WsEvent::Connect { handshake, .. } => handshake.query_params.wf(),
        _ => true,
    }
}


proof fn lemma_without_contains(m: Seq<usize>, s: usize, x: usize)
    ensures
        without(m, s).contains(x) <==> (m.contains(x) && x != s),
    decreases m.len(),
{
    reveal(Seq::filter);
    if m.len() > 0 {
        lemma_without_contains(m.drop_last(), s, x);
        if m.drop_last().contains(x) {
            let i = choose|i: int| 0 <= i < m.drop_last().len() && m.drop_last()[i] == x;
            assert(m[i] == x);
        }
        if m.contains(x) && x != m.last() {
            let i = choose|i: int| 0 <= i < m.len() && m[i] == x;
            assert(m.drop_last()[i] == x);
        }
        if without(m.drop_last(), s).contains(x) {
            let i = choose|i: int|
                0 <= i < without(m.drop_last(), s).len() && without(m.drop_last(), s)[i] == x;
            if m.last() != s {
                assert(without(m, s)[i] == x);
            }
        }
        if m.last() == x && x != s {
            assert(without(m, s).last() == x);
        }
    }
}

proof fn lemma_without_no_dup(m: Seq<usize>, s: usize)
    requires
        m.no_duplicates(),
    ensures
        without(m, s).no_duplicates(),
    decreases m.len(),
{
    reveal(Seq::filter);
    if m.len() > 0 {
        let t = m.drop_last();
        assert(t.no_duplicates());
        lemma_without_no_dup(t, s);
        if m.last() != s {
            lemma_without_contains(t, s, m.last());
            if t.contains(m.last()) {
                let i = choose|i: int| 0 <= i < t.len() && t[i] == m.last();
                assert(m[i] == m[m.len() - 1]);
            }
            let w = without(t, s);
            assert(without(m, s) == w.push(m.last()));
            assert forall|i: int, j: int|
                0 <= i < w.push(m.last()).len() && 0 <= j < w.push(m.last()).len() && i != j
                    implies w.push(m.last())[i] != w.push(m.last())[j] by {
                if i == w.len() {
                    assert(w.contains(w[j]));
                } else if j == w.len() {
                    assert(w.contains(w[i]));
                }
            }
        }
    }
}

proof fn lemma_filter_no_dup(m: Seq<usize>, f: spec_fn(usize) -> bool)
    requires
        m.no_duplicates(),
    ensures
        m.filter(f).no_duplicates(),
    decreases m.len(),
{
    reveal(Seq::filter);
    if m.len() > 0 {
        let t = m.drop_last();
        assert(t.no_duplicates());
        lemma_filter_no_dup(t, f);
        if f(m.last()) {
            let w = t.filter(f);
            assert(!w.contains(m.last())) by {
                if w.contains(m.last()) {
                    t.lemma_filter_contains_rev(f, m.last());
                    let i = choose|i: int| 0 <= i < t.len() && t[i] == m.last();
                    assert(m[i] == m[m.len() - 1]);
                }
            }
            assert(m.filter(f) == w.push(m.last()));
            assert forall|i: int, j: int|
                0 <= i < w.push(m.last()).len() && 0 <= j < w.push(m.last()).len() && i != j
                    implies w.push(m.last())[i] != w.push(m.last())[j] by {
                if i == w.len() {
                    assert(w.contains(w[j]));
                } else if j == w.len() {
                    assert(w.contains(w[i]));
                }
            }
        }
    }
}

proof fn lemma_without_absent(m: Seq<usize>, s: usize)
    requires
        !m.contains(s),
    ensures
        without(m, s) == m,
    decreases m.len(),
{
    reveal(Seq::filter);
    if m.len() > 0 {
        assert(!m.drop_last().contains(s)) by {
            if m.drop_last().contains(s) {
                let i = choose|i: int| 0 <= i < m.drop_last().len() && m.drop_last()[i] == s;
                assert(m[i] == s);
            }
        }
        lemma_without_absent(m.drop_last(), s);
        assert(m.last() != s) by {
            assert(m[m.len() - 1] == m.last());
        }
        assert(m.drop_last().push(m.last()) =~= m);
    } else {
        assert(without(m, s) =~= m);
    }
}

/// Joining a room keeps the registry consistent, for a socket that was not
/// registered yet.
pub proof fn law_connect_keeps_wf(
    before: ChatState,
    after: ChatState,
    chat_id: usize,
    socket_id: usize,
    user_id: usize,
)
    requires
        before.wf(),
        !before.registered(socket_id),
        after.rooms() == before.joined(chat_id, socket_id),
        after.user_of() == before.user_of().insert(socket_id, user_id),
        after.room_of() == before.room_of().insert(socket_id, chat_id),
        after.connected() == before.connected().insert(socket_id),
    ensures
        after.wf(),
        after.registered(socket_id),
        after.rooms()[chat_id].contains(socket_id),
{
    let r0 = before.rooms();
    let r1 = after.rooms();
    assert(!(r0.contains_key(chat_id) && r0[chat_id].contains(socket_id)));
    let m1 = r1[chat_id];
    if r0.contains_key(chat_id) {
        assert(m1 == r0[chat_id].push(socket_id));
        assert(m1[m1.len() - 1] == socket_id);
    } else {
        assert(m1 == seq![socket_id]);
        assert(m1[0] == socket_id);
    }
    assert(m1.contains(socket_id));
    assert forall|c: usize| #[trigger] r1.contains_key(c) implies r1[c].len() > 0
        && r1[c].no_duplicates() by {
        if c == chat_id && r0.contains_key(c) {
            let m0 = r0[c];
            assert(m0.no_duplicates());
            assert forall|i: int, j: int|
                0 <= i < m1.len() && 0 <= j < m1.len() && i != j implies m1[i] != m1[j] by {
                if i == m0.len() {
                    assert(m0.contains(m0[j]));
                } else if j == m0.len() {
                    assert(m0.contains(m0[i]));
                }
            }
        }
    }
    assert forall|c: usize, s: usize|
        r1.contains_key(c) && #[trigger] r1[c].contains(s) implies after.room_of().contains_key(s)
        && after.room_of()[s] == c by {
        if c == chat_id {
            if s != socket_id && r0.contains_key(c) {
                let i = choose|i: int| 0 <= i < m1.len() && m1[i] == s;
                assert(r0[c][i] == s);
                assert(r0[c].contains(s));
            } else if s != socket_id {
                let i = choose|i: int| 0 <= i < m1.len() && m1[i] == s;
                assert(false);
            }
        } else {
            assert(r0[c].contains(s));
            if s == socket_id {
                assert(before.room_of().contains_key(s));
            }
        }
    }
    assert forall|s: usize| #[trigger] after.room_of().contains_key(s) implies r1.contains_key(
        after.room_of()[s],
    ) && r1[after.room_of()[s]].contains(s) by {
        if s != socket_id {
            let c = before.room_of()[s];
            assert(r0.contains_key(c) && r0[c].contains(s));
            if c == chat_id {
                let i = choose|i: int| 0 <= i < r0[c].len() && r0[c][i] == s;
                assert(m1[i] == s);
            }
        }
    }
    assert(after.user_of().dom() =~= after.room_of().dom());
    assert(after.connected() =~= after.room_of().dom());
}

/// Leaving keeps the registry consistent, and the socket is then in no room.
pub proof fn law_unregister_keeps_wf(before: ChatState, after: ChatState, socket_id: usize)
    requires
        before.wf(),
        after.rooms() == before.left(socket_id),
        after.user_of() == before.user_of().remove(socket_id),
        after.room_of() == before.room_of().remove(socket_id),
        after.connected() == before.connected().remove(socket_id),
    ensures
        after.wf(),
        !after.registered(socket_id),
        forall|c: usize| #[trigger] after.rooms().contains_key(c) ==> !after.rooms()[c].contains(
            socket_id,
        ),
{
    let r0 = before.rooms();
    let r1 = after.rooms();
    if before.room_of().contains_key(socket_id) {
        let c0 = before.room_of()[socket_id];
        assert(r0.contains_key(c0));
        lemma_without_no_dup(r0[c0], socket_id);
    }
    assert forall|c: usize, s: usize| r1.contains_key(c) && #[trigger] r1[c].contains(s) implies after.room_of().contains_key(s)
        && after.room_of()[s] == c && s != socket_id by {
        if before.room_of().contains_key(socket_id) && c == before.room_of()[socket_id] {
            lemma_without_contains(r0[c], socket_id, s);
        } else {
            assert(r0[c].contains(s));
            if s == socket_id {
                assert(before.room_of()[s] == c);
            }
        }
    }
    assert forall|s: usize| #[trigger] after.room_of().contains_key(s) implies r1.contains_key(
        after.room_of()[s],
    ) && r1[after.room_of()[s]].contains(s) by {
        let c = before.room_of()[s];
        assert(r0.contains_key(c) && r0[c].contains(s));
        if before.room_of().contains_key(socket_id) && c == before.room_of()[socket_id] {
            lemma_without_contains(r0[c], socket_id, s);
        }
    }
    assert forall|c: usize| #[trigger] r1.contains_key(c) implies r1[c].len() > 0
        && r1[c].no_duplicates() by {
        if before.room_of().contains_key(socket_id) && c == before.room_of()[socket_id] {
            lemma_without_no_dup(r0[c], socket_id);
        }
    }
    assert(after.user_of().dom() =~= after.room_of().dom());
    assert(after.connected() =~= after.room_of().dom());
}

/// Joining a room and leaving it again gives back the registry as it was,
/// for a socket that was not registered.
pub proof fn law_connect_then_unregister(
    before: ChatState,
    middle: ChatState,
    after: ChatState,
    chat_id: usize,
    socket_id: usize,
    user_id: usize,
)
    requires
        before.wf(),
        !before.registered(socket_id),
        middle.rooms() == before.joined(chat_id, socket_id),
        middle.user_of() == before.user_of().insert(socket_id, user_id),
        middle.room_of() == before.room_of().insert(socket_id, chat_id),
        middle.connected() == before.connected().insert(socket_id),
        after.rooms() == middle.left(socket_id),
        after.user_of() == middle.user_of().remove(socket_id),
        after.room_of() == middle.room_of().remove(socket_id),
        after.connected() == middle.connected().remove(socket_id),
    ensures
        after.rooms() == before.rooms(),
        after.user_of() == before.user_of(),
        after.room_of() == before.room_of(),
        after.connected() == before.connected(),
{
    let r0 = before.rooms();
    assert(!before.user_of().contains_key(socket_id));
    assert(!before.connected().contains(socket_id));
    assert(after.user_of() =~= before.user_of());
    assert(after.room_of() =~= before.room_of());
    assert(after.connected() =~= before.connected());
    assert(middle.room_of()[socket_id] == chat_id);
    if r0.contains_key(chat_id) {
        let m0 = r0[chat_id];
        assert(!m0.contains(socket_id));
        lemma_without_absent(m0, socket_id);
        reveal(Seq::filter);
        assert(m0.push(socket_id).drop_last() =~= m0);
        assert(without(m0.push(socket_id), socket_id) == m0);
        assert(m0.len() > 0);
        assert(after.rooms() =~= r0);
    } else {
        reveal(Seq::filter);
        let one = seq![socket_id];
        assert(one.drop_last() =~= Seq::<usize>::empty());
        assert(one.last() == socket_id);
        lemma_without_single(socket_id);
        assert(after.rooms() =~= r0);
    }
}

/// In a consistent registry a message goes to exactly the other members of
/// the room.
pub proof fn law_recipients_are_other_members(st: ChatState, chat_id: usize, sender: usize)
    requires
        st.wf(),
        st.rooms().contains_key(chat_id),
    ensures
        st.recipients_of(chat_id, sender) == without(st.rooms()[chat_id], sender),
{
    let m = st.rooms()[chat_id];
    assert forall|i: int| 0 <= i < m.len() implies st.connected().contains(#[trigger] m[i]) by {
        assert(m.contains(m[i]));
    }
    let f = st.relays_to(sender);
    let g = |x: usize| x != sender;
    assert forall|i: int| 0 <= i < m.len() implies f(m[i]) == g(m[i]) by {
        assert(st.connected().contains(m[i]));
    }
    lemma_filter_without(m, sender, f);
}

/// A message reaches only sockets that have a channel, and never its
/// sender: a socket that never joined, or that has left, gets nothing.
pub proof fn law_only_connected_others_receive(st: ChatState, chat_id: usize, sender: usize, s: usize)
    requires
        st.recipients_of(chat_id, sender).contains(s),
    ensures
        s != sender,
        st.connected().contains(s),
        st.rooms().contains_key(chat_id),
        st.rooms()[chat_id].contains(s),
{
    let f = st.relays_to(sender);
    let m = st.rooms()[chat_id];
    let i = choose|i: int| 0 <= i < m.filter(f).len() && m.filter(f)[i] == s;
    m.lemma_filter_pred(f, i);
    assert(m.filter(f)[i] == s);
    m.lemma_filter_contains_rev(f, s);
}

proof fn lemma_filter_without(m: Seq<usize>, s: usize, f: spec_fn(usize) -> bool)
    requires
        forall|i: int| 0 <= i < m.len() ==> f(m[i]) == (m[i] != s),
    ensures
        m.filter(f) == without(m, s),
    decreases m.len(),
{
    reveal(Seq::filter);
    if m.len() > 0 {
        lemma_filter_without(m.drop_last(), s, f);
        assert(f(m[m.len() - 1]) == (m[m.len() - 1] != s));
    }
}

proof fn lemma_without_single(s: usize)
    ensures
        without(seq![s], s) == Seq::<usize>::empty(),
{
    reveal_with_fuel(Seq::filter, 2);
    assert(seq![s].drop_last() =~= Seq::<usize>::empty());
}

} // verus!
