//! The server session: the roster of logged-in players and the replies and
//! broadcasts that each connection event or request message calls for.
//!
//! The functions here only decide; sending the replies over the transport and
//! reading the clock are the surrounding application's work, which hands in
//! each received message and the current time.

use vstd::prelude::*;

use crate::codec::{char_from_u32, string_of_char};
use crate::packet::{CPacket, SPacket, PROTOCOL_ID};

verus! {

/// Where a decided reply is to be sent.
#[derive(Clone, Copy, Debug, PartialEq, Eq, Structural)]
pub enum SendTo {
    /// Only to the named connection.
    To(u64),
    /// To every connected peer.
    Broadcast,
}

/// A connection-lifecycle event reported by the transport.
#[derive(Clone, Debug, PartialEq)]
pub enum ServerEvent {
    ClientConnected { client_id: u64 },
    ClientDisconnected { client_id: u64 },
}

/// The server's session state: connected identifier to display name.
pub struct ServerInfo {
    pub online_players: Vec<(u64, String)>,
}

/// The decimal digits of `n`, most significant first.
pub open spec fn spec_digits(n: nat) -> Seq<char>
    decreases n,
{
    if n < 10 {
        seq![((48 + n) as u32) as char]
    } else {
        spec_digits(n / 10) + seq![((48 + n % 10) as u32) as char]
    }
}

/// The decimal text of `n`.
pub fn u64_to_string(n: u64) -> (s: String)
    ensures
        s@ == spec_digits(n as nat),
    decreases n,
{
    let d: u32 = 48 + (n % 10) as u32;
    let c = match char_from_u32(d) {
        Some(c) => c,
        None => {
            proof {
                assert(vstd::utf8::is_scalar(d));
            }
            vstd::pervasive::unreached()
        },
    };
    proof {
        vstd::utf8::char_u32_cast(c, d);
    }
    if n < 10 {
        let s = string_of_char(c);
        proof {
            assert(s@ =~= spec_digits(n as nat));
        }
        s
    } else {
        let mut s = u64_to_string(n / 10);
        let one = string_of_char(c);
        s.append(one.as_str());
        proof {
            assert(s@ =~= spec_digits(n as nat));
        }
        s
    }
}

/// The chat notice when a player arrives, with the updated player count.
pub open spec fn spec_join_notice(name: Seq<char>, count: nat) -> Seq<char> {
    "Player "@ + name + " joined. ("@ + spec_digits(count) + "/N)"@
}

/// The chat notice when a player leaves, with the updated player count.
pub open spec fn spec_leave_notice(name: Seq<char>, count: nat) -> Seq<char> {
    "Player "@ + name + " left. ("@ + spec_digits(count) + "/N)"@
}

/// The disconnect reason for a login whose identifier is already in use.
pub open spec fn spec_already_logged_in(name: Seq<char>) -> Seq<char> {
    "Player "@ + name + " already logged in"@
}

/// The broadcast form of a received chat line, tagged with the sender's
/// identity: the display name of a logged-in sender, else the decimal
/// connection identifier.
pub open spec fn spec_chat_line(sender: Seq<char>, message: Seq<char>) -> Seq<char> {
    "<"@ + sender + ">: "@ + message
}

fn chat_line(sender: &str, message: &str) -> (s: String)
    ensures
        s@ == spec_chat_line(sender@, message@),
{
    let mut s = "<".to_owned();
    s.append(sender);
    s.append(">: ");
    s.append(message);
    s
}

fn join_notice(name: &str, count: u64) -> (s: String)
    ensures
        s@ == spec_join_notice(name@, count as nat),
{
    let mut s = "Player ".to_owned();
    s.append(name);
    s.append(" joined. (");
    let digits = u64_to_string(count);
    s.append(digits.as_str());
    s.append("/N)");
    s
}

fn leave_notice(name: &str, count: u64) -> (s: String)
    ensures
        s@ == spec_leave_notice(name@, count as nat),
{
    let mut s = "Player ".to_owned();
    s.append(name);
    s.append(" left. (");
    let digits = u64_to_string(count);
    s.append(digits.as_str());
    s.append("/N)");
    s
}

/// An empty roster.
impl Default for ServerInfo {
    fn default() -> (r: ServerInfo)
        ensures
            r.wf(),
            r.spec_count() == 0,
    {
        ServerInfo::new()
    }
}

impl ServerInfo {
    /// Each connection is logged in at most once.
    pub open spec fn wf(self) -> bool {
        forall|i: int, j: int|
            0 <= i < j < self.online_players@.len() ==> (#[trigger] self.online_players@[i]).0 != (
            #[trigger] self.online_players@[j]).0
    }

    /// Whether the connection `id` is logged in.
    pub open spec fn spec_logged_in(self, id: u64) -> bool {
        exists|i: int|
            0 <= i < self.online_players@.len() && (#[trigger] self.online_players@[i]).0 == id
    }

    /// The display name registered for `id` (meaningful when logged in).
    pub open spec fn spec_name_of(self, id: u64) -> Seq<char> {
        let i = choose|i: int|
            0 <= i < self.online_players@.len() && (#[trigger] self.online_players@[i]).0 == id;
        self.online_players@[i].1@
    }

    /// The number of logged-in players.
    pub open spec fn spec_count(self) -> nat {
        self.online_players@.len()
    }

    /// An empty roster.
    pub fn new() -> (r: ServerInfo)
        ensures
            r.wf(),
            r.spec_count() == 0,
            forall|id: u64| !r.spec_logged_in(id),
    {
        ServerInfo { online_players: Vec::new() }
    }

    fn roster_index(&self, id: u64) -> (r: Option<usize>)
        ensures
            match r {
                Some(k) => k < self.online_players@.len() && self.online_players@[k as int].0
                    == id,
                None => !self.spec_logged_in(id),
            },
    {
        let n = self.online_players.len();
        let mut i: usize = 0;
        while i < n
            invariant
                i <= n,
                n == self.online_players@.len(),
                forall|j: int| 0 <= j < i ==> (#[trigger] self.online_players@[j]).0 != id,
            decreases n - i,
        {
            if self.online_players[i].0 == id {
                return Some(i);
            }
            i = i + 1;
        }
        None
    }

    /// React to a connection event. A disconnect of a logged-in player drops
    /// the roster entry and broadcasts a departure notice carrying the
    /// updated count; everything else changes nothing and says nothing.
    #[verifier::loop_isolation(false)]
    pub fn handle_event(&mut self, event: ServerEvent) -> (r: Option<(SendTo, SPacket)>)
        requires
            old(self).wf(),
        ensures
            final(self).wf(),
            match event {
                ServerEvent::ClientDisconnected { client_id } => {
                    &&& forall|q: u64|
                        final(self).spec_logged_in(q) <==> (old(self).spec_logged_in(q) && q
                            != client_id)
                    &&& (r is Some <==> old(self).spec_logged_in(client_id))
                    &&& (old(self).spec_logged_in(client_id) ==> {
                        &&& final(self).spec_count() == old(self).spec_count() - 1
                        &&& r matches Some((to, p)) && to == SendTo::Broadcast && p@
                            == crate::packet::SPacketV::Chat {
                            message: spec_leave_notice(
                                old(self).spec_name_of(client_id),
                                final(self).spec_count(),
                            ),
                        }
                    })
                    &&& (!old(self).spec_logged_in(client_id) ==> *final(self) == *old(self))
                },
                ServerEvent::ClientConnected { .. } => *final(self) == *old(self) && r is None,
            },
    {
        match event {
            ServerEvent::ClientConnected { client_id: _ } => None,
            ServerEvent::ClientDisconnected { client_id } => {
                let k = match self.roster_index(client_id) {
                    Some(k) => k,
                    None => {
                        return None;
                    },
                };
                let (_, name) = self.online_players.remove(k);
                proof {
                    old(self).online_players@.remove_ensures(k as int);
                    assert(old(self).online_players@[k as int].0 == client_id);
                    assert forall|q: u64|
                        self.spec_logged_in(q) <==> (old(self).spec_logged_in(q) && q
                            != client_id) by {
                        if self.spec_logged_in(q) {
                            let j = choose|j: int|
                                0 <= j < self.online_players@.len() && (
                                #[trigger] self.online_players@[j]).0 == q;
                            if j < k {
                                assert(old(self).online_players@[j].0 == q);
                            } else {
                                assert(old(self).online_players@[j + 1].0 == q);
                            }
                            if q == client_id {
                                let j0: int = if j < k {
                                    j
                                } else {
                                    j + 1
                                };
                                if j0 < k {
                                    assert(old(self).online_players@[j0].0 != old(
                                        self,
                                    ).online_players@[k as int].0);
                                } else {
                                    assert(old(self).online_players@[k as int].0 != old(
                                        self,
                                    ).online_players@[j0].0);
                                }
                            }
                        }
                        if old(self).spec_logged_in(q) && q != client_id {
                            let j = choose|j: int|
                                0 <= j < old(self).online_players@.len() && (#[trigger] old(
                                    self,
                                ).online_players@[j]).0 == q;
                            assert(j != k);
                            if j < k {
                                assert(self.online_players@[j].0 == q);
                            } else {
                                assert(self.online_players@[j - 1].0 == q);
                            }
                        }
                    }
                    // the removed entry is the one the name spec names
                    let i = choose|i: int|
                        0 <= i < old(self).online_players@.len() && (#[trigger] old(
                            self,
                        ).online_players@[i]).0 == client_id;
                    if i < k {
                        assert(old(self).online_players@[i].0 != old(
                            self,
                        ).online_players@[k as int].0);
                    } else if k < i {
                        assert(old(self).online_players@[k as int].0 != old(
                            self,
                        ).online_players@[i].0);
                    }
                    assert(old(self).spec_name_of(client_id) == name@);
                }
                let count = self.online_players.len() as u64;
                let notice = leave_notice(name.as_str(), count);
                Some((SendTo::Broadcast, SPacket::Chat { message: notice }))
            },
        }
    }
}

impl ServerInfo {
    /// Decide the replies to one received request message, as the protocol
    /// prescribes: a handshake of a mismatched revision is turned away, a
    /// query is answered with the server snapshot, a ping is echoed with the
    /// server clock, a login is vetted against the transport identifier and
    /// the roster, and chat is broadcast to everyone.
    #[verifier::loop_isolation(false)]
    pub fn handle_cpacket(&mut self, client_id: u64, packet: CPacket, now: u64) -> (r: Vec<
        (SendTo, SPacket),
    >)
        requires
            old(self).wf(),
        ensures
            final(self).wf(),
            match packet@ {
                crate::packet::CPacketV::Handshake { protocol_version } => {
                    &&& *final(self) == *old(self)
                    &&& (protocol_version == PROTOCOL_ID ==> r@.len() == 0)
                    &&& (protocol_version < PROTOCOL_ID ==> r@.len() == 1 && r@[0].0
                        == SendTo::To(client_id) && r@[0].1@ == crate::packet::SPacketV::Disconnect {
                        reason: "Client outdated."@,
                    })
                    &&& (protocol_version > PROTOCOL_ID ==> r@.len() == 1 && r@[0].0
                        == SendTo::To(client_id) && r@[0].1@ == crate::packet::SPacketV::Disconnect {
                        reason: "Server outdated."@,
                    })
                },
                crate::packet::CPacketV::ServerQuery => {
                    &&& *final(self) == *old(self)
                    &&& r@.len() == 1 && r@[0].0 == SendTo::To(client_id)
                    &&& r@[0].1@ matches crate::packet::SPacketV::ServerInfo {
                        protocol_version,
                        num_players_online,
                        ..
                    } && protocol_version == PROTOCOL_ID && num_players_online as nat == (if old(
                        self,
                    ).spec_count() > 0xFFFF_FFFF {
                        0xFFFF_FFFF as nat
                    } else {
                        old(self).spec_count()
                    })
                },
                crate::packet::CPacketV::Ping { client_time } => {
                    &&& *final(self) == *old(self)
                    &&& r@.len() == 1 && r@[0].0 == SendTo::To(client_id)
                    &&& r@[0].1@ == crate::packet::SPacketV::Pong {
                        client_time,
                        server_time: now,
                    }
                },
                crate::packet::CPacketV::Login { uuid, access_token, username } => {
                    &&& (uuid != client_id ==> {
                        &&& *final(self) == *old(self)
                        &&& r@.len() == 1 && r@[0].0 == SendTo::To(client_id)
                        &&& r@[0].1@ == crate::packet::SPacketV::Disconnect {
                            reason: "Login UUID not equals ClientID"@,
                        }
                    })
                    &&& (uuid == client_id && old(self).spec_logged_in(client_id) ==> {
                        &&& *final(self) == *old(self)
                        &&& r@.len() == 1 && r@[0].0 == SendTo::To(client_id)
                        &&& r@[0].1@ == crate::packet::SPacketV::Disconnect {
                            reason: spec_already_logged_in(username),
                        }
                    })
                    &&& (uuid == client_id && !old(self).spec_logged_in(client_id) ==> {
                        &&& forall|q: u64|
                            final(self).spec_logged_in(q) <==> (old(self).spec_logged_in(q) || q
                                == client_id)
                        &&& final(self).spec_count() == old(self).spec_count() + 1
                        &&& final(self).spec_name_of(client_id) == username
                        &&& r@.len() == 2
                        &&& r@[0].0 == SendTo::To(client_id) && r@[0].1@
                            == crate::packet::SPacketV::LoginSuccess
                        &&& r@[1].0 == SendTo::Broadcast && r@[1].1@
                            == crate::packet::SPacketV::Chat {
                            message: spec_join_notice(username, final(self).spec_count()),
                        }
                    })
                },
                crate::packet::CPacketV::ChatMessage { message } => {
                    &&& *final(self) == *old(self)
                    &&& r@.len() == 1 && r@[0].0 == SendTo::Broadcast
                    &&& r@[0].1@ == crate::packet::SPacketV::Chat {
                        message: spec_chat_line(
                            if old(self).spec_logged_in(client_id) {
                                old(self).spec_name_of(client_id)
                            } else {
                                spec_digits(client_id as nat)
                            },
                            message,
                        ),
                    }
                },
            },
    {
        let mut out: Vec<(SendTo, SPacket)> = Vec::new();
        match packet {
            CPacket::Handshake { protocol_version } => {
                if protocol_version < PROTOCOL_ID {
                    out.push(
                        (
                            SendTo::To(client_id),
                            SPacket::Disconnect { reason: "Client outdated.".to_owned() },
                        ),
                    );
                } else if protocol_version > PROTOCOL_ID {
                    out.push(
                        (
                            SendTo::To(client_id),
                            SPacket::Disconnect { reason: "Server outdated.".to_owned() },
                        ),
                    );
                }
            },
            CPacket::ServerQuery => {
                let len = self.online_players.len();
                let count: u32 = if len > 0xFFFF_FFFFusize {
                    0xFFFF_FFFFu32
                } else {
                    len as u32
                };
                out.push(
                    (
                        SendTo::To(client_id),
                        SPacket::ServerInfo {
                            motd: "Motd".to_owned(),
                            num_players_limit: 64,
                            num_players_online: count,
                            protocol_version: PROTOCOL_ID,
                            favicon: "None".to_owned(),
                        },
                    ),
                );
            },
            CPacket::Ping { client_time } => {
                out.push((SendTo::To(client_id), SPacket::Pong { client_time, server_time: now }));
            },
            CPacket::Login { uuid, access_token: _, username } => {
                if uuid != client_id {
                    out.push(
                        (
                            SendTo::To(client_id),
                            SPacket::Disconnect {
                                reason: "Login UUID not equals ClientID".to_owned(),
                            },
                        ),
                    );
                } else {
                    match self.roster_index(client_id) {
                        Some(_) => {
                            let mut reason = "Player ".to_owned();
                            reason.append(username.as_str());
                            reason.append(" already logged in");
                            out.push((SendTo::To(client_id), SPacket::Disconnect { reason }));
                        },
                        None => {
                            let ghost pre = *self;
                            let name_copy = username.clone();
                            self.online_players.push((client_id, name_copy));
                            proof {
                                let n = pre.online_players@.len() as int;
                                assert(self.online_players@[n].0 == client_id);
                                assert forall|i: int, j: int|
                                    0 <= i < j < self.online_players@.len() implies (
                                #[trigger] self.online_players@[i]).0 != (
                                #[trigger] self.online_players@[j]).0 by {
                                    if j == n && self.online_players@[i].0 == client_id {
                                        assert(pre.online_players@[i].0 == client_id);
                                        assert(pre.spec_logged_in(client_id));
                                    }
                                }
                                assert forall|q: u64|
                                    self.spec_logged_in(q) <==> (pre.spec_logged_in(q) || q
                                        == client_id) by {
                                    if pre.spec_logged_in(q) {
                                        let i = choose|i: int|
                                            0 <= i < pre.online_players@.len() && (
                                            #[trigger] pre.online_players@[i]).0 == q;
                                        assert(self.online_players@[i].0 == q);
                                    }
                                    if self.spec_logged_in(q) {
                                        let i = choose|i: int|
                                            0 <= i < self.online_players@.len() && (
                                            #[trigger] self.online_players@[i]).0 == q;
                                        if i < n {
                                            assert(pre.online_players@[i].0 == q);
                                        }
                                    }
                                }
                                let i = choose|i: int|
                                    0 <= i < self.online_players@.len() && (
                                    #[trigger] self.online_players@[i]).0 == client_id;
                                if i < n {
                                    assert(pre.online_players@[i].0 == client_id);
                                    assert(pre.spec_logged_in(client_id));
                                }
                                assert(self.spec_name_of(client_id) == username@);
                            }
                            out.push((SendTo::To(client_id), SPacket::LoginSuccess));
                            let count = self.online_players.len() as u64;
                            let notice = join_notice(username.as_str(), count);
                            out.push((SendTo::Broadcast, SPacket::Chat { message: notice }));
                        },
                    }
                }
            },
            CPacket::ChatMessage { message } => {
                let line = match self.roster_index(client_id) {
                    Some(k) => {
                        proof {
                            let i = choose|i: int|
                                0 <= i < self.online_players@.len() && (
                                #[trigger] self.online_players@[i]).0 == client_id;
                            if i < k {
                                assert(self.online_players@[i].0 != self.online_players@[k as int].0);
                            } else if k < i {
                                assert(self.online_players@[k as int].0 != self.online_players@[i].0);
                            }
                            assert(self.spec_name_of(client_id) == self.online_players@[k as int].1@);
                        }
                        let name = self.online_players[k].1.clone();
                        chat_line(name.as_str(), message.as_str())
                    },
                    None => {
                        let id_text = u64_to_string(client_id);
                        chat_line(id_text.as_str(), message.as_str())
                    },
                };
                out.push((SendTo::Broadcast, SPacket::Chat { message: line }));
            },
        }
        out
    }
}

} // verus!
