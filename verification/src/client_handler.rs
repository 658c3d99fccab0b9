//! The client session: the replica world (entities, chunks, roster, chat)
//! and how each received event message or connection change mutates it.
//!
//! The functions here only decide and mutate the replica; the surrounding
//! application drives the transport, hands each received message in, and
//! performs the returned effect (tearing down or creating render objects,
//! closing the transport).

use vstd::prelude::*;

use crate::chunk::Chunk;
use crate::chunk_system::ChunkSystem;
use crate::coords::{is_chunkpos, in_bounds, spec_in_bounds, spec_is_chunkpos, spec_neighbor_pos, IVec3, VOLUME};
use crate::packet::{SPacket, SPacketV};

verus! {

/// The client-local stand-in for a server-authoritative entity. A position
/// update may arrive before the spawn message, so either half may be missing
/// for a while; the two merge into one object whatever the order.
pub struct EntityReplica {
    pub name: Option<String>,
    pub position: Option<IVec3>,
}

/// The transport's connection state, as the client sees it each tick.
#[derive(Clone, Copy, Debug, PartialEq, Eq, Structural)]
pub enum ConnState {
    Disconnected,
    Connecting,
    Connected,
}

/// What the presentation layer currently shows.
#[derive(Clone, Copy, Debug, PartialEq, Eq, Structural)]
pub enum CurrentUi {
    Login,
    InGame,
    DisconnectedReason,
}

/// External work that a handled message asks of the application.
pub enum ClientEffect {
    /// Tear the transport down; the reason is recorded on the session.
    DisconnectTransport,
    /// Create the render and physics objects for a freshly loaded chunk.
    RenderChunk { chunkpos: IVec3 },
    /// Release the render and physics objects of an unloaded chunk.
    TeardownChunk { entity: u64, mesh_handle: u64 },
    /// The message was legal on the wire but breaks the world's rules; the
    /// replica was left untouched.
    ProtocolFault,
}

/// One entry per entity identifier.
pub open spec fn ents_wf(t: Seq<(u64, EntityReplica)>) -> bool {
    forall|i: int, j: int|
        0 <= i < j < t.len() ==> (#[trigger] t[i]).0 != (#[trigger] t[j]).0
}

/// Whether a replica exists for `id`.
pub open spec fn ent_contains(t: Seq<(u64, EntityReplica)>, id: u64) -> bool {
    exists|i: int| 0 <= i < t.len() && (#[trigger] t[i]).0 == id
}

/// The replica for `id` (meaningful when one exists).
pub open spec fn ent_at(t: Seq<(u64, EntityReplica)>, id: u64) -> EntityReplica {
    let i = choose|i: int| 0 <= i < t.len() && (#[trigger] t[i]).0 == id;
    t[i].1
}

/// How a position update transforms the entity table: the replica for `id`
/// exists afterwards (created bare when absent) and carries the new
/// position; its name and every other replica are untouched.
pub open spec fn upserted_pos(
    told: Seq<(u64, EntityReplica)>,
    tnew: Seq<(u64, EntityReplica)>,
    id: u64,
    p: IVec3,
) -> bool {
    &&& ents_wf(tnew)
    &&& forall|q: u64| q != id ==> (ent_contains(tnew, q) <==> ent_contains(told, q))
    &&& forall|q: u64|
        q != id && ent_contains(told, q) ==> #[trigger] ent_at(tnew, q) == ent_at(told, q)
    &&& ent_contains(tnew, id)
    &&& ent_at(tnew, id).position == Some(p)
    &&& ent_at(tnew, id).name == (if ent_contains(told, id) {
        ent_at(told, id).name
    } else {
        None::<String>
    })
}

/// How a spawn message transforms the entity table: the replica for `id`
/// exists afterwards (fetched when present) and carries the display name;
/// its position and every other replica are untouched.
pub open spec fn upserted_name(
    told: Seq<(u64, EntityReplica)>,
    tnew: Seq<(u64, EntityReplica)>,
    id: u64,
    name: Seq<char>,
) -> bool {
    &&& ents_wf(tnew)
    &&& forall|q: u64| q != id ==> (ent_contains(tnew, q) <==> ent_contains(told, q))
    &&& forall|q: u64|
        q != id && ent_contains(told, q) ==> #[trigger] ent_at(tnew, q) == ent_at(told, q)
    &&& ent_contains(tnew, id)
    &&& (ent_at(tnew, id).name matches Some(s) && s@ == name)
    &&& ent_at(tnew, id).position == (if ent_contains(told, id) {
        ent_at(told, id).position
    } else {
        None::<IVec3>
    })
}

/// Idempotent spawn: a position update racing ahead of the spawn message,
/// the spawn, and a second update leave exactly one replica for the
/// identifier, carrying the display name and the last position.
pub proof fn lemma_idempotent_spawn(
    t0: Seq<(u64, EntityReplica)>,
    t1: Seq<(u64, EntityReplica)>,
    t2: Seq<(u64, EntityReplica)>,
    t3: Seq<(u64, EntityReplica)>,
    id: u64,
    p: IVec3,
    name: Seq<char>,
    p2: IVec3,
)
    requires
        upserted_pos(t0, t1, id, p),
        upserted_name(t1, t2, id, name),
        upserted_pos(t2, t3, id, p2),
    ensures
        ent_contains(t3, id),
        forall|i: int, j: int|
            0 <= i < t3.len() && 0 <= j < t3.len() && (#[trigger] t3[i]).0 == id && (
            #[trigger] t3[j]).0 == id ==> i == j,
        ent_at(t3, id).position == Some(p2),
        ent_at(t3, id).name matches Some(s) && s@ == name,
{
    assert(ent_at(t2, id).name matches Some(s) && s@ == name);
    assert(ent_at(t3, id).name == ent_at(t2, id).name);
    assert forall|i: int, j: int|
        0 <= i < t3.len() && 0 <= j < t3.len() && (#[trigger] t3[i]).0 == id && (#[trigger] t3[j]).0
            == id implies i == j by {
        if i < j {
            assert(t3[i].0 != t3[j].0);
        } else if j < i {
            assert(t3[j].0 != t3[i].0);
        }
    }
}

/// The whole client-side session and world replica.
pub struct ClientSession {
    pub entities: Vec<(u64, EntityReplica)>,
    pub chunk_sys: ChunkSystem,
    pub chat_scrollback: Vec<String>,
    pub playerlist: Vec<(u64, String)>,
    pub disconnected_reason: String,
    pub last_connection: ConnState,
    pub current_ui: CurrentUi,
}

impl ClientSession {
    pub open spec fn wf(self) -> bool {
        &&& ents_wf(self.entities@)
        &&& self.chunk_sys.wf()
    }

    /// A fresh session: nothing replicated, the login screen up, the
    /// transport considered disconnected.
    pub fn new(view_distance: i32) -> (r: ClientSession)
        ensures
            r.wf(),
            r.entities@.len() == 0,
            r.chunk_sys.chunks@.len() == 0,
            r.chat_scrollback@.len() == 0,
            r.playerlist@.len() == 0,
            r.disconnected_reason@ == Seq::<char>::empty(),
            r.last_connection == ConnState::Disconnected,
            r.current_ui == CurrentUi::Login,
    {
        ClientSession {
            entities: Vec::new(),
            chunk_sys: ChunkSystem::new(view_distance),
            chat_scrollback: Vec::new(),
            playerlist: Vec::new(),
            disconnected_reason: String::new(),
            last_connection: ConnState::Disconnected,
            current_ui: CurrentUi::Login,
        }
    }

    fn ent_index(&self, id: u64) -> (r: Option<usize>)
        ensures
            match r {
                Some(k) => k < self.entities@.len() && self.entities@[k as int].0 == id,
                None => !ent_contains(self.entities@, id),
            },
    {
        let n = self.entities.len();
        let mut i: usize = 0;
        while i < n
            invariant
                i <= n,
                n == self.entities@.len(),
                forall|j: int| 0 <= j < i ==> (#[trigger] self.entities@[j]).0 != id,
            decreases n - i,
        {
            if self.entities[i].0 == id {
                return Some(i);
            }
            i = i + 1;
        }
        None
    }

    proof fn lemma_ent_at(t: Seq<(u64, EntityReplica)>, k: int)
        requires
            ents_wf(t),
            0 <= k < t.len(),
        ensures
            ent_at(t, t[k].0) == t[k].1,
    {
        let id = t[k].0;
        assert(ent_contains(t, id));
        let i = choose|i: int| 0 <= i < t.len() && (#[trigger] t[i]).0 == id;
        if i < k {
            assert(t[i].0 != t[k].0);
        } else if k < i {
            assert(t[k].0 != t[i].0);
        }
    }

    /// Fetch or create the replica for `id` and set its position.
    #[verifier::loop_isolation(false)]
    fn upsert_position(&mut self, id: u64, p: IVec3)
        requires
            ents_wf(old(self).entities@),
        ensures
            upserted_pos(old(self).entities@, final(self).entities@, id, p),
            final(self).chunk_sys == old(self).chunk_sys,
            final(self).chat_scrollback == old(self).chat_scrollback,
            final(self).playerlist == old(self).playerlist,
            final(self).disconnected_reason == old(self).disconnected_reason,
            final(self).last_connection == old(self).last_connection,
            final(self).current_ui == old(self).current_ui,
    {
        match self.ent_index(id) {
            Some(k) => {
                proof {
                    ClientSession::lemma_ent_at(old(self).entities@, k as int);
                }
                self.entities[k].1.position = Some(p);
                proof {
                    self.lemma_upsert_frame(*old(self), k as int, id);
                }
            },
            None => {
                self.entities.push((id, EntityReplica { name: None, position: Some(p) }));
                proof {
                    self.lemma_push_frame(*old(self), id);
                }
            },
        }
    }

    /// Fetch or create the replica for `id` and set its display name.
    #[verifier::loop_isolation(false)]
    fn upsert_name(&mut self, id: u64, name: String)
        requires
            ents_wf(old(self).entities@),
        ensures
            upserted_name(old(self).entities@, final(self).entities@, id, name@),
            final(self).chunk_sys == old(self).chunk_sys,
            final(self).chat_scrollback == old(self).chat_scrollback,
            final(self).playerlist == old(self).playerlist,
            final(self).disconnected_reason == old(self).disconnected_reason,
            final(self).last_connection == old(self).last_connection,
            final(self).current_ui == old(self).current_ui,
    {
        match self.ent_index(id) {
            Some(k) => {
                proof {
                    ClientSession::lemma_ent_at(old(self).entities@, k as int);
                }
                self.entities[k].1.name = Some(name);
                proof {
                    self.lemma_upsert_frame(*old(self), k as int, id);
                }
            },
            None => {
                self.entities.push((id, EntityReplica { name: Some(name), position: None }));
                proof {
                    self.lemma_push_frame(*old(self), id);
                }
            },
        }
    }

    /// After updating the entry at `k` (whose identifier is `id`), every
    /// other replica looks exactly as before.
    proof fn lemma_upsert_frame(self, pre: ClientSession, k: int, id: u64)
        requires
            ents_wf(pre.entities@),
            0 <= k < pre.entities@.len(),
            pre.entities@[k].0 == id,
            self.entities@.len() == pre.entities@.len(),
            forall|i: int|
                0 <= i < pre.entities@.len() && i != k ==> #[trigger] self.entities@[i]
                    == pre.entities@[i],
            self.entities@[k].0 == id,
        ensures
            ents_wf(self.entities@),
            forall|q: u64| q != id ==> (ent_contains(self.entities@, q) <==> ent_contains(
                pre.entities@,
                q,
            )),
            forall|q: u64|
                q != id && ent_contains(pre.entities@, q) ==> #[trigger] ent_at(self.entities@, q)
                    == ent_at(pre.entities@, q),
            ent_contains(self.entities@, id),
            ent_at(self.entities@, id) == self.entities@[k].1,
            ent_contains(pre.entities@, id),
            ent_at(pre.entities@, id) == pre.entities@[k].1,
    {
        let t = self.entities@;
        let t0 = pre.entities@;
        assert forall|i: int, j: int|
            0 <= i < j < t.len() implies (#[trigger] t[i]).0 != (#[trigger] t[j]).0 by {
            assert(t0[i].0 != t0[j].0);
            assert(t[i].0 == t0[i].0);
            assert(t[j].0 == t0[j].0);
        }
        assert forall|q: u64| q != id implies (ent_contains(t, q) <==> ent_contains(t0, q)) by {
            if ent_contains(t, q) {
                let i = choose|i: int| 0 <= i < t.len() && (#[trigger] t[i]).0 == q;
                assert(i != k);
                assert(t0[i].0 == q);
            }
            if ent_contains(t0, q) {
                let i = choose|i: int| 0 <= i < t0.len() && (#[trigger] t0[i]).0 == q;
                assert(i != k);
                assert(t[i].0 == q);
            }
        }
        assert forall|q: u64| q != id && ent_contains(t0, q) implies #[trigger] ent_at(t, q)
            == ent_at(t0, q) by {
            let i = choose|i: int| 0 <= i < t0.len() && (#[trigger] t0[i]).0 == q;
            assert(i != k);
            assert(t[i].0 == q);
            ClientSession::lemma_ent_at(t0, i);
            ClientSession::lemma_ent_at(t, i);
        }
        ClientSession::lemma_ent_at(t, k);
        ClientSession::lemma_ent_at(t0, k);
    }

    /// After pushing a fresh entry for an absent `id`, every older replica
    /// looks exactly as before.
    proof fn lemma_push_frame(self, pre: ClientSession, id: u64)
        requires
            ents_wf(pre.entities@),
            !ent_contains(pre.entities@, id),
            self.entities@.len() == pre.entities@.len() + 1,
            forall|i: int|
                0 <= i < pre.entities@.len() ==> #[trigger] self.entities@[i] == pre.entities@[i],
            self.entities@[pre.entities@.len() as int].0 == id,
        ensures
            ents_wf(self.entities@),
            forall|q: u64| q != id ==> (ent_contains(self.entities@, q) <==> ent_contains(
                pre.entities@,
                q,
            )),
            forall|q: u64|
                q != id && ent_contains(pre.entities@, q) ==> #[trigger] ent_at(self.entities@, q)
                    == ent_at(pre.entities@, q),
            ent_contains(self.entities@, id),
            ent_at(self.entities@, id) == self.entities@[pre.entities@.len() as int].1,
    {
        let t = self.entities@;
        let t0 = pre.entities@;
        let n = t0.len() as int;
        assert forall|i: int, j: int|
            0 <= i < j < t.len() implies (#[trigger] t[i]).0 != (#[trigger] t[j]).0 by {
            if j < n {
                assert(t0[i].0 != t0[j].0);
            } else {
                if t[i].0 == id {
                    assert(t0[i].0 == id);
                }
            }
        }
        assert forall|q: u64| q != id implies (ent_contains(t, q) <==> ent_contains(t0, q)) by {
            if ent_contains(t, q) {
                let i = choose|i: int| 0 <= i < t.len() && (#[trigger] t[i]).0 == q;
                assert(i != n);
                assert(t0[i].0 == q);
            }
            if ent_contains(t0, q) {
                let i = choose|i: int| 0 <= i < t0.len() && (#[trigger] t0[i]).0 == q;
                assert(t[i].0 == q);
            }
        }
        assert forall|q: u64| q != id && ent_contains(t0, q) implies #[trigger] ent_at(t, q)
            == ent_at(t0, q) by {
            let i = choose|i: int| 0 <= i < t0.len() && (#[trigger] t0[i]).0 == q;
            assert(t[i].0 == q);
            ClientSession::lemma_ent_at(t0, i);
            ClientSession::lemma_ent_at(t, i);
        }
        ClientSession::lemma_ent_at(t, n);
    }

    /// Drop the replica for `id`; unknown identifiers are tolerated silently
    /// so duplicate or late deletions cannot fail.
    #[verifier::loop_isolation(false)]
    fn remove_entity(&mut self, id: u64)
        requires
            ents_wf(old(self).entities@),
        ensures
            ents_wf(final(self).entities@),
            !ent_contains(final(self).entities@, id),
            forall|q: u64|
                q != id ==> (ent_contains(final(self).entities@, q) <==> ent_contains(
                    old(self).entities@,
                    q,
                )),
            forall|q: u64|
                q != id && ent_contains(old(self).entities@, q) ==> #[trigger] ent_at(
                    final(self).entities@,
                    q,
                ) == ent_at(old(self).entities@, q),
            final(self).chunk_sys == old(self).chunk_sys,
            final(self).chat_scrollback == old(self).chat_scrollback,
            final(self).playerlist == old(self).playerlist,
            final(self).disconnected_reason == old(self).disconnected_reason,
            final(self).last_connection == old(self).last_connection,
            final(self).current_ui == old(self).current_ui,
    {
        let k = match self.ent_index(id) {
            Some(k) => k,
            None => {
                return ;
            },
        };
        self.entities.remove(k);
        proof {
            let t = self.entities@;
            let t0 = old(self).entities@;
            t0.remove_ensures(k as int);
            assert forall|i: int, j: int|
                0 <= i < j < t.len() implies (#[trigger] t[i]).0 != (#[trigger] t[j]).0 by {
                let i0: int = if i < k {
                    i
                } else {
                    i + 1
                };
                let j0: int = if j < k {
                    j
                } else {
                    j + 1
                };
                assert(t0[i0].0 != t0[j0].0);
            }
            assert(!ent_contains(t, id)) by {
                if ent_contains(t, id) {
                    let i = choose|i: int| 0 <= i < t.len() && (#[trigger] t[i]).0 == id;
                    let i0: int = if i < k {
                        i
                    } else {
                        i + 1
                    };
                    assert(t0[i0].0 == id);
                    if i0 < k {
                        assert(t0[i0].0 != t0[k as int].0);
                    } else {
                        assert(t0[k as int].0 != t0[i0].0);
                    }
                }
            }
            assert forall|q: u64| q != id implies (ent_contains(t, q) <==> ent_contains(
                t0,
                q,
            )) by {
                if ent_contains(t, q) {
                    let i = choose|i: int| 0 <= i < t.len() && (#[trigger] t[i]).0 == q;
                    let i0: int = if i < k {
                        i
                    } else {
                        i + 1
                    };
                    assert(t0[i0].0 == q);
                }
                if ent_contains(t0, q) {
                    let i = choose|i: int| 0 <= i < t0.len() && (#[trigger] t0[i]).0 == q;
                    assert(i != k);
                    if i < k {
                        assert(t[i].0 == q);
                    } else {
                        assert(t[i - 1].0 == q);
                    }
                }
            }
            assert forall|q: u64| q != id && ent_contains(t0, q) implies #[trigger] ent_at(t, q)
                == ent_at(t0, q) by {
                let i = choose|i: int| 0 <= i < t0.len() && (#[trigger] t0[i]).0 == q;
                assert(i != k);
                let i1: int = if i < k {
                    i
                } else {
                    i - 1
                };
                assert(t[i1].0 == q);
                assert(t[i1].1 == t0[i].1);
                ClientSession::lemma_ent_at(t0, i);
                ClientSession::lemma_ent_at(t, i1);
            }
        }
    }
}

impl ClientSession {
    /// Apply one received event message to the replica, in arrival order,
    /// and say what external work it calls for.
    ///
    /// World-state races are tolerated as the protocol demands: a position
    /// may arrive before its spawn message, and deleting an unknown entity
    /// or chunk is a silent no-op. A chunk message whose coordinate breaks
    /// the world's rules (not grid-aligned, at the numeric rim, or already
    /// loaded) leaves the replica untouched and reports a protocol fault.
    pub fn handle_spacket(&mut self, packet: SPacket) -> (r: Option<ClientEffect>)
        requires
            old(self).wf(),
        ensures
            final(self).wf(),
            match packet@ {
                SPacketV::Disconnect { reason } => {
                    &&& final(self).disconnected_reason@ == reason
                    &&& final(self).entities == old(self).entities
                    &&& final(self).chunk_sys == old(self).chunk_sys
                    &&& final(self).chat_scrollback == old(self).chat_scrollback
                    &&& final(self).playerlist == old(self).playerlist
                    &&& final(self).last_connection == old(self).last_connection
                    &&& final(self).current_ui == old(self).current_ui
                    &&& r matches Some(e) && e is DisconnectTransport
                },
                SPacketV::LoginSuccess => {
                    &&& final(self).current_ui == CurrentUi::InGame
                    &&& final(self).entities == old(self).entities
                    &&& final(self).chunk_sys == old(self).chunk_sys
                    &&& final(self).chat_scrollback == old(self).chat_scrollback
                    &&& final(self).playerlist == old(self).playerlist
                    &&& final(self).disconnected_reason == old(self).disconnected_reason
                    &&& final(self).last_connection == old(self).last_connection
                    &&& r is None
                },
                SPacketV::Chat { message } => {
                    &&& final(self).chat_scrollback@.len() == old(self).chat_scrollback@.len() + 1
                    &&& final(self).chat_scrollback@.last()@ == message
                    &&& final(self).chat_scrollback@.drop_last() == old(self).chat_scrollback@
                    &&& final(self).entities == old(self).entities
                    &&& final(self).chunk_sys == old(self).chunk_sys
                    &&& final(self).playerlist == old(self).playerlist
                    &&& final(self).disconnected_reason == old(self).disconnected_reason
                    &&& final(self).last_connection == old(self).last_connection
                    &&& final(self).current_ui == old(self).current_ui
                    &&& r is None
                },
                SPacketV::EntityNew { entity_id, name } => {
                    &&& upserted_name(old(self).entities@, final(self).entities@, entity_id, name)
                    &&& final(self).chunk_sys == old(self).chunk_sys
                    &&& final(self).chat_scrollback == old(self).chat_scrollback
                    &&& final(self).playerlist == old(self).playerlist
                    &&& final(self).disconnected_reason == old(self).disconnected_reason
                    &&& final(self).last_connection == old(self).last_connection
                    &&& final(self).current_ui == old(self).current_ui
                    &&& r is None
                },
                SPacketV::EntityPos { entity_id, position } => {
                    &&& upserted_pos(
                        old(self).entities@,
                        final(self).entities@,
                        entity_id,
                        position,
                    )
                    &&& final(self).chunk_sys == old(self).chunk_sys
                    &&& final(self).chat_scrollback == old(self).chat_scrollback
                    &&& final(self).playerlist == old(self).playerlist
                    &&& final(self).disconnected_reason == old(self).disconnected_reason
                    &&& final(self).last_connection == old(self).last_connection
                    &&& final(self).current_ui == old(self).current_ui
                    &&& r is None
                },
                SPacketV::EntityDel { entity_id } => {
                    &&& !ent_contains(final(self).entities@, entity_id)
                    &&& forall|q: u64|
                        q != entity_id ==> (ent_contains(final(self).entities@, q)
                            <==> ent_contains(old(self).entities@, q))
                    &&& forall|q: u64|
                        q != entity_id && ent_contains(old(self).entities@, q)
                            ==> #[trigger] ent_at(final(self).entities@, q) == ent_at(
                            old(self).entities@,
                            q,
                        )
                    &&& final(self).chunk_sys == old(self).chunk_sys
                    &&& final(self).chat_scrollback == old(self).chat_scrollback
                    &&& final(self).playerlist == old(self).playerlist
                    &&& final(self).disconnected_reason == old(self).disconnected_reason
                    &&& final(self).last_connection == old(self).last_connection
                    &&& final(self).current_ui == old(self).current_ui
                    &&& r is None
                },
                SPacketV::PlayerList { playerlist } => {
                    &&& crate::packet::roster_view(final(self).playerlist@) == playerlist
                    &&& final(self).entities == old(self).entities
                    &&& final(self).chunk_sys == old(self).chunk_sys
                    &&& final(self).chat_scrollback == old(self).chat_scrollback
                    &&& final(self).disconnected_reason == old(self).disconnected_reason
                    &&& final(self).last_connection == old(self).last_connection
                    &&& final(self).current_ui == old(self).current_ui
                    &&& r is None
                },
                SPacketV::ChunkNew { chunkpos, voxel } => {
                    &&& (spec_is_chunkpos(chunkpos) && spec_in_bounds(chunkpos) && !old(self).chunk_sys.spec_contains(chunkpos) && voxel.len() == VOLUME ==> {
                        &&& final(self).chunk_sys.spec_contains(chunkpos)
                        &&& final(self).chunk_sys.spec_chunk_at(chunkpos).voxels@ == voxel
                        &&& forall|p: IVec3|
                            final(self).chunk_sys.spec_contains(p) <==> (old(self).chunk_sys.spec_contains(p) || p == chunkpos)
                        &&& forall|d: int|
                            0 <= d < 6 ==> final(self).chunk_sys.spec_is_dirty(
                                #[trigger] spec_neighbor_pos(chunkpos, d),
                            )
                        &&& r matches Some(e) && e matches ClientEffect::RenderChunk {
                            chunkpos: cp,
                        } && cp == chunkpos
                    })
                    &&& (!(spec_is_chunkpos(chunkpos) && spec_in_bounds(chunkpos) && !old(self).chunk_sys.spec_contains(chunkpos) && voxel.len() == VOLUME) ==> {
                        &&& *final(self) == *old(self)
                        &&& r matches Some(e) && e is ProtocolFault
                    })
                    &&& final(self).entities == old(self).entities
                    &&& final(self).chat_scrollback == old(self).chat_scrollback
                    &&& final(self).playerlist == old(self).playerlist
                    &&& final(self).disconnected_reason == old(self).disconnected_reason
                    &&& final(self).last_connection == old(self).last_connection
                    &&& final(self).current_ui == old(self).current_ui
                },
                SPacketV::ChunkDel { chunkpos } => {
                    &&& (spec_is_chunkpos(chunkpos) ==> {
                        &&& forall|p: IVec3|
                            final(self).chunk_sys.spec_contains(p) <==> (old(self).chunk_sys.spec_contains(p) && p != chunkpos)
                        &&& (old(self).chunk_sys.spec_contains(chunkpos) ==> (r matches Some(e)
                            && (e matches ClientEffect::TeardownChunk { entity, mesh_handle }
                            && entity == old(self).chunk_sys.spec_chunk_at(chunkpos).entity
                            && mesh_handle == old(self).chunk_sys.spec_chunk_at(
                            chunkpos,
                        ).mesh_handle)))
                        &&& (!old(self).chunk_sys.spec_contains(chunkpos) ==> r is None && *final(self) == *old(self))
                    })
                    &&& (!spec_is_chunkpos(chunkpos) ==> *final(self) == *old(self) && (r matches
                        Some(e) && e is ProtocolFault))
                    &&& final(self).entities == old(self).entities
                    &&& final(self).chat_scrollback == old(self).chat_scrollback
                    &&& final(self).playerlist == old(self).playerlist
                    &&& final(self).disconnected_reason == old(self).disconnected_reason
                    &&& final(self).last_connection == old(self).last_connection
                    &&& final(self).current_ui == old(self).current_ui
                },
                _ => *final(self) == *old(self) && r is None,
            },
    {
        match packet {
            SPacket::Disconnect { reason } => {
                self.disconnected_reason = reason;
                Some(ClientEffect::DisconnectTransport)
            },
            SPacket::ServerInfo { .. } => None,
            SPacket::Pong { .. } => None,
            SPacket::LoginSuccess => {
                self.current_ui = CurrentUi::InGame;
                None
            },
            SPacket::Chat { message } => {
                self.chat_scrollback.push(message);
                proof {
                    assert(self.chat_scrollback@.drop_last() =~= old(self).chat_scrollback@);
                }
                None
            },
            SPacket::EntityNew { entity_id, name } => {
                self.upsert_name(entity_id, name);
                None
            },
            SPacket::EntityPos { entity_id, position } => {
                self.upsert_position(entity_id, position);
                None
            },
            SPacket::EntityDel { entity_id } => {
                self.remove_entity(entity_id);
                None
            },
            SPacket::PlayerList { playerlist } => {
                self.playerlist = playerlist;
                None
            },
            SPacket::ChunkNew { chunkpos, voxel } => {
                if !(is_chunkpos(chunkpos) && in_bounds(chunkpos)) || voxel.len() != VOLUME
                    || self.chunk_sys.has_chunk(chunkpos) {
                    return Some(ClientEffect::ProtocolFault);
                }
                let chunk = Chunk::from_cells(chunkpos, voxel);
                self.chunk_sys.spawn_chunk(chunk);
                Some(ClientEffect::RenderChunk { chunkpos })
            },
            SPacket::ChunkDel { chunkpos } => {
                if !is_chunkpos(chunkpos) {
                    return Some(ClientEffect::ProtocolFault);
                }
                match self.chunk_sys.despawn_chunk(chunkpos) {
                    Some(chunk) => Some(
                        ClientEffect::TeardownChunk {
                            entity: chunk.entity,
                            mesh_handle: chunk.mesh_handle,
                        },
                    ),
                    None => None,
                }
            },
        }
    }

    /// Note the transport's state once per tick; a transition fires only on
    /// the tick where the state first differs from the last one seen
    /// (edge-triggered). Entering the disconnected state for a reason other
    /// than the client's own request clears the whole world replica and
    /// surfaces the recorded reason.
    pub fn connection_tick(&mut self, now: ConnState, by_client: bool) -> (changed: bool)
        requires
            old(self).wf(),
        ensures
            final(self).wf(),
            changed == (old(self).last_connection != now),
            !changed ==> *final(self) == *old(self),
            changed ==> final(self).last_connection == now,
            final(self).disconnected_reason == old(self).disconnected_reason,
            final(self).chat_scrollback == old(self).chat_scrollback,
            final(self).playerlist == old(self).playerlist,
            changed && now is Disconnected ==> {
                &&& final(self).entities@.len() == 0
                &&& final(self).chunk_sys.chunks@.len() == 0
                &&& final(self).current_ui == (if by_client {
                    old(self).current_ui
                } else {
                    CurrentUi::DisconnectedReason
                })
            },
            changed && !(now is Disconnected) ==> {
                &&& final(self).entities == old(self).entities
                &&& final(self).chunk_sys == old(self).chunk_sys
                &&& final(self).current_ui == old(self).current_ui
            },
    {
        if self.last_connection == now {
            return false;
        }
        self.last_connection = now;
        if now == ConnState::Disconnected {
            self.entities = Vec::new();
            let vd = self.chunk_sys.view_distance.0;
            self.chunk_sys = ChunkSystem::new(vd);
            if !by_client {
                self.current_ui = CurrentUi::DisconnectedReason;
            }
        }
        true
    }
}

} // verus!
