//! The client and server sessions: entity replication, chunk replication,
//! login vetting and the chat notices.

use voxsync::client_handler::{ClientEffect, ClientSession, ConnState, CurrentUi};
use voxsync::coords::{IVec3, VOLUME};
use voxsync::packet::{CPacket, SPacket, PROTOCOL_ID};
use voxsync::server_handler::{SendTo, ServerEvent, ServerInfo};

fn v(x: i32, y: i32, z: i32) -> IVec3 {
    IVec3::new(x, y, z)
}

fn entity_of(s: &ClientSession, id: u64) -> Option<&voxsync::client_handler::EntityReplica> {
    let mut found = None;
    for (eid, rep) in s.entities.iter() {
        if *eid == id {
            assert!(found.is_none(), "one replica per identifier");
            found = Some(rep);
        }
    }
    found
}

/// A position update racing ahead of the spawn message merges with it into
/// one replica carrying the name and the last position.
#[test]
fn entity_spawn_is_idempotent() {
    let mut s = ClientSession::new(2);
    let p = v(1, 2, 3);
    let p2 = v(4, 5, 6);
    s.handle_spacket(SPacket::EntityPos { entity_id: 9, position: p });
    s.handle_spacket(SPacket::EntityNew { entity_id: 9, name: "Alex".to_string() });
    s.handle_spacket(SPacket::EntityPos { entity_id: 9, position: p2 });
    assert_eq!(s.entities.len(), 1);
    let rep = entity_of(&s, 9).unwrap();
    assert_eq!(rep.name.as_deref(), Some("Alex"));
    assert_eq!(rep.position, Some(p2));
}

#[test]
fn spawn_then_updates_in_order() {
    let mut s = ClientSession::new(2);
    s.handle_spacket(SPacket::EntityNew { entity_id: 3, name: "Bob".to_string() });
    s.handle_spacket(SPacket::EntityPos { entity_id: 3, position: v(7, 7, 7) });
    assert_eq!(s.entities.len(), 1);
    let rep = entity_of(&s, 3).unwrap();
    assert_eq!(rep.name.as_deref(), Some("Bob"));
    assert_eq!(rep.position, Some(v(7, 7, 7)));
}

/// Deleting an entity never spawned creates nothing and raises nothing.
#[test]
fn deleting_unknown_entity_is_a_noop() {
    let mut s = ClientSession::new(2);
    let effect = s.handle_spacket(SPacket::EntityDel { entity_id: 7 });
    assert!(effect.is_none());
    assert_eq!(s.entities.len(), 0);
}

#[test]
fn deleting_a_known_entity_drops_it() {
    let mut s = ClientSession::new(2);
    s.handle_spacket(SPacket::EntityNew { entity_id: 7, name: "x".to_string() });
    s.handle_spacket(SPacket::EntityDel { entity_id: 7 });
    assert!(entity_of(&s, 7).is_none());
    // a duplicate deletion is tolerated too
    assert!(s.handle_spacket(SPacket::EntityDel { entity_id: 7 }).is_none());
}

#[test]
fn chunk_messages_drive_the_store() {
    let mut s = ClientSession::new(2);
    let p = v(0, 0, 0);
    let effect = s.handle_spacket(SPacket::ChunkNew { chunkpos: p, voxel: vec![5u32; VOLUME] });
    assert!(matches!(effect, Some(ClientEffect::RenderChunk { chunkpos }) if chunkpos == p));
    assert!(s.chunk_sys.has_chunk(p));
    assert_eq!(s.chunk_sys.get_chunk(p).unwrap().voxels[0], 5);
    let effect = s.handle_spacket(SPacket::ChunkDel { chunkpos: p });
    assert!(matches!(effect, Some(ClientEffect::TeardownChunk { .. })));
    assert!(!s.chunk_sys.has_chunk(p));
}

/// A deletion for a never-loaded coordinate is a silent no-op.
#[test]
fn deleting_unknown_chunk_is_a_noop() {
    let mut s = ClientSession::new(2);
    assert!(s.handle_spacket(SPacket::ChunkDel { chunkpos: v(32, 0, 0) }).is_none());
}

/// A coordinate off the chunk grid breaks the world's rules: the replica is
/// untouched and the message reported as a protocol fault.
#[test]
fn misaligned_chunk_coordinate_is_a_fault() {
    let mut s = ClientSession::new(2);
    let effect = s.handle_spacket(SPacket::ChunkNew { chunkpos: v(1, 0, 0), voxel: vec![0u32; VOLUME] });
    assert!(matches!(effect, Some(ClientEffect::ProtocolFault)));
    assert_eq!(s.chunk_sys.num_chunks(), 0);
    // so does loading the same coordinate twice
    s.handle_spacket(SPacket::ChunkNew { chunkpos: v(0, 0, 0), voxel: vec![0u32; VOLUME] });
    let effect = s.handle_spacket(SPacket::ChunkNew { chunkpos: v(0, 0, 0), voxel: vec![0u32; VOLUME] });
    assert!(matches!(effect, Some(ClientEffect::ProtocolFault)));
    assert_eq!(s.chunk_sys.num_chunks(), 1);
}

#[test]
fn chat_and_roster_and_disconnect() {
    let mut s = ClientSession::new(2);
    s.handle_spacket(SPacket::Chat { message: "one".to_string() });
    s.handle_spacket(SPacket::Chat { message: "two".to_string() });
    assert_eq!(s.chat_scrollback, vec!["one".to_string(), "two".to_string()]);
    s.handle_spacket(SPacket::PlayerList { playerlist: vec![(1, "a".to_string())] });
    assert_eq!(s.playerlist, vec![(1, "a".to_string())]);
    let effect = s.handle_spacket(SPacket::Disconnect { reason: "kicked".to_string() });
    assert!(matches!(effect, Some(ClientEffect::DisconnectTransport)));
    assert_eq!(s.disconnected_reason, "kicked");
    assert!(s.handle_spacket(SPacket::LoginSuccess).is_none());
    assert_eq!(s.current_ui, CurrentUi::InGame);
}

/// Transitions fire once per state change, not once per tick.
#[test]
fn connection_transitions_are_edge_triggered() {
    let mut s = ClientSession::new(2);
    assert!(s.connection_tick(ConnState::Connecting, false));
    assert!(!s.connection_tick(ConnState::Connecting, false));
    assert!(s.connection_tick(ConnState::Connected, false));
    assert!(!s.connection_tick(ConnState::Connected, false));
    // build up some replica state, then lose the connection
    s.handle_spacket(SPacket::EntityNew { entity_id: 1, name: "a".to_string() });
    s.handle_spacket(SPacket::ChunkNew { chunkpos: v(0, 0, 0), voxel: vec![0u32; VOLUME] });
    assert!(s.connection_tick(ConnState::Disconnected, false));
    assert_eq!(s.entities.len(), 0);
    assert_eq!(s.chunk_sys.num_chunks(), 0);
    assert_eq!(s.current_ui, CurrentUi::DisconnectedReason);
}

#[test]
fn local_disconnect_skips_the_reason_screen() {
    let mut s = ClientSession::new(2);
    s.connection_tick(ConnState::Connected, false);
    s.handle_spacket(SPacket::LoginSuccess);
    assert!(s.connection_tick(ConnState::Disconnected, true));
    assert_eq!(s.current_ui, CurrentUi::InGame);
}

// ---------------------------------------------------------------------------
// Server side
// ---------------------------------------------------------------------------
#[test]
fn handshake_version_vetting() {
    let mut srv = ServerInfo::new();
    let replies = srv.handle_cpacket(1, CPacket::Handshake { protocol_version: PROTOCOL_ID }, 0);
    assert!(replies.is_empty());
    let replies =
        srv.handle_cpacket(1, CPacket::Handshake { protocol_version: PROTOCOL_ID - 1 }, 0);
    assert_eq!(
        replies,
        vec![(SendTo::To(1), SPacket::Disconnect { reason: "Client outdated.".to_string() })]
    );
    let replies =
        srv.handle_cpacket(1, CPacket::Handshake { protocol_version: PROTOCOL_ID + 1 }, 0);
    assert_eq!(
        replies,
        vec![(SendTo::To(1), SPacket::Disconnect { reason: "Server outdated.".to_string() })]
    );
}

#[test]
fn query_and_ping() {
    let mut srv = ServerInfo::new();
    let replies = srv.handle_cpacket(1, CPacket::ServerQuery, 0);
    assert_eq!(replies.len(), 1);
    match &replies[0] {
        (SendTo::To(1), SPacket::ServerInfo { protocol_version, num_players_online, .. }) => {
            assert_eq!(*protocol_version, PROTOCOL_ID);
            assert_eq!(*num_players_online, 0);
        }
        other => panic!("unexpected reply {:?}", other),
    }
    // the pong echoes the client timestamp verbatim beside the server clock
    let replies = srv.handle_cpacket(1, CPacket::Ping { client_time: 7 }, 100);
    assert_eq!(replies, vec![(SendTo::To(1), SPacket::Pong { client_time: 7, server_time: 100 })]);
}

#[test]
fn login_registers_and_announces() {
    let mut srv = ServerInfo::new();
    let replies = srv.handle_cpacket(
        5,
        CPacket::Login { uuid: 5, access_token: 1, username: "A".to_string() },
        0,
    );
    assert_eq!(replies.len(), 2);
    assert_eq!(replies[0], (SendTo::To(5), SPacket::LoginSuccess));
    assert_eq!(
        replies[1],
        (SendTo::Broadcast, SPacket::Chat { message: "Player A joined. (1/N)".to_string() })
    );
    assert_eq!(srv.online_players, vec![(5, "A".to_string())]);
}

/// A second login on the same connection identifier is turned away.
#[test]
fn second_login_is_rejected() {
    let mut srv = ServerInfo::new();
    let login = CPacket::Login { uuid: 5, access_token: 1, username: "A".to_string() };
    srv.handle_cpacket(5, login.clone(), 0);
    let replies = srv.handle_cpacket(5, login, 0);
    assert_eq!(
        replies,
        vec![(
            SendTo::To(5),
            SPacket::Disconnect { reason: "Player A already logged in".to_string() }
        )]
    );
    assert_eq!(srv.online_players.len(), 1);
}

#[test]
fn login_with_foreign_uuid_is_rejected() {
    let mut srv = ServerInfo::new();
    let replies = srv.handle_cpacket(
        5,
        CPacket::Login { uuid: 6, access_token: 1, username: "A".to_string() },
        0,
    );
    assert_eq!(
        replies,
        vec![(
            SendTo::To(5),
            SPacket::Disconnect { reason: "Login UUID not equals ClientID".to_string() }
        )]
    );
    assert!(srv.online_players.is_empty());
}

#[test]
fn chat_is_tagged_with_the_sender() {
    let mut srv = ServerInfo::new();
    // an anonymous sender is tagged with its connection identifier
    let replies = srv.handle_cpacket(5, CPacket::ChatMessage { message: "hi".to_string() }, 0);
    assert_eq!(
        replies,
        vec![(SendTo::Broadcast, SPacket::Chat { message: "<5>: hi".to_string() })]
    );
    // a logged-in sender is tagged with its display name
    srv.handle_cpacket(5, CPacket::Login { uuid: 5, access_token: 1, username: "A".to_string() }, 0);
    let replies = srv.handle_cpacket(5, CPacket::ChatMessage { message: "hi".to_string() }, 0);
    assert_eq!(
        replies,
        vec![(SendTo::Broadcast, SPacket::Chat { message: "<A>: hi".to_string() })]
    );
}

#[test]
fn departure_drops_the_roster_entry_and_announces() {
    let mut srv = ServerInfo::new();
    srv.handle_cpacket(5, CPacket::Login { uuid: 5, access_token: 1, username: "A".to_string() }, 0);
    srv.handle_cpacket(6, CPacket::Login { uuid: 6, access_token: 1, username: "B".to_string() }, 0);
    let reply = srv.handle_event(ServerEvent::ClientDisconnected { client_id: 5 });
    assert_eq!(
        reply,
        Some((SendTo::Broadcast, SPacket::Chat { message: "Player A left. (1/N)".to_string() }))
    );
    assert_eq!(srv.online_players, vec![(6, "B".to_string())]);
    // a disconnect of a connection that never logged in says nothing
    assert!(srv.handle_event(ServerEvent::ClientDisconnected { client_id: 5 }).is_none());
    assert!(srv.handle_event(ServerEvent::ClientConnected { client_id: 9 }).is_none());
}

/// The digits in a notice come from the verified decimal formatter.
#[test]
fn decimal_formatting() {
    assert_eq!(voxsync::server_handler::u64_to_string(0), "0");
    assert_eq!(voxsync::server_handler::u64_to_string(7), "7");
    assert_eq!(voxsync::server_handler::u64_to_string(10), "10");
    assert_eq!(voxsync::server_handler::u64_to_string(90210), "90210");
    assert_eq!(voxsync::server_handler::u64_to_string(u64::MAX), "18446744073709551615");
}

/// One full exchange over the wire: the server's decisions, encoded, decode
/// on the client into the same messages and apply cleanly.
#[test]
fn end_to_end_login_over_the_codec() {
    let mut srv = ServerInfo::new();
    let mut cli = ClientSession::new(2);
    cli.connection_tick(ConnState::Connected, false);
    let login = CPacket::Login { uuid: 5, access_token: 1, username: "A".to_string() };
    let wire = voxsync::codec::encode_cpacket(&login).unwrap();
    let received = voxsync::codec::decode_cpacket(&wire).unwrap();
    let replies = srv.handle_cpacket(5, received, 42);
    for (_, packet) in replies {
        let bytes = voxsync::codec::encode_spacket(&packet).unwrap();
        let event = voxsync::codec::decode_spacket(&bytes).unwrap();
        cli.handle_spacket(event);
    }
    assert_eq!(cli.current_ui, CurrentUi::InGame);
    assert_eq!(cli.chat_scrollback, vec!["Player A joined. (1/N)".to_string()]);
}

/// The handles the render collaborator creates for a wire-loaded chunk are
/// recorded on it and handed back unchanged at teardown.
#[test]
fn render_handles_round_trip_to_teardown() {
    let mut s = ClientSession::new(2);
    let p = v(0, 0, 0);
    let effect = s.handle_spacket(SPacket::ChunkNew { chunkpos: p, voxel: vec![0u32; VOLUME] });
    assert!(matches!(effect, Some(ClientEffect::RenderChunk { .. })));
    assert!(s.chunk_sys.attach_render_handles(p, 41, 42));
    let chunk = s.chunk_sys.get_chunk(p).unwrap();
    assert_eq!((chunk.entity, chunk.mesh_handle), (41, 42));
    match s.handle_spacket(SPacket::ChunkDel { chunkpos: p }) {
        Some(ClientEffect::TeardownChunk { entity, mesh_handle }) => {
            assert_eq!((entity, mesh_handle), (41, 42));
        }
        other => panic!("expected a teardown, got {:?}", other.is_some()),
    }
    // recording handles for an unloaded coordinate changes nothing
    assert!(!s.chunk_sys.attach_render_handles(p, 1, 2));
}
