//! The protocol messages: a closed set of tagged variants in each direction.

use vstd::prelude::*;

use crate::coords::{IVec3, VOLUME};

verus! {

/// The protocol revision this library speaks.
pub const PROTOCOL_ID: u64 = 1;

/// Client-to-server request messages.
#[derive(Clone, Debug, PartialEq)]
pub enum CPacket {
    Handshake { protocol_version: u64 },
    ServerQuery,
    Ping { client_time: u64 },
    Login { uuid: u64, access_token: u64, username: String },
    ChatMessage { message: String },
}

/// Server-to-client event messages.
#[derive(Clone, Debug, PartialEq)]
pub enum SPacket {
    Disconnect { reason: String },
    ServerInfo {
        motd: String,
        num_players_limit: u32,
        num_players_online: u32,
        protocol_version: u64,
        favicon: String,
    },
    Pong { client_time: u64, server_time: u64 },
    LoginSuccess,
    Chat { message: String },
    EntityNew { entity_id: u64, name: String },
    EntityPos { entity_id: u64, position: IVec3 },
    EntityDel { entity_id: u64 },
    PlayerList { playerlist: Vec<(u64, String)> },
    ChunkNew { chunkpos: IVec3, voxel: Vec<u32> },
    ChunkDel { chunkpos: IVec3 },
}

/// The mathematical shape of a [`CPacket`]: text as character sequences.
pub enum CPacketV {
    Handshake { protocol_version: u64 },
    ServerQuery,
    Ping { client_time: u64 },
    Login { uuid: u64, access_token: u64, username: Seq<char> },
    ChatMessage { message: Seq<char> },
}

/// The mathematical shape of an [`SPacket`].
pub enum SPacketV {
    Disconnect { reason: Seq<char> },
    ServerInfo {
        motd: Seq<char>,
        num_players_limit: u32,
        num_players_online: u32,
        protocol_version: u64,
        favicon: Seq<char>,
    },
    Pong { client_time: u64, server_time: u64 },
    LoginSuccess,
    Chat { message: Seq<char> },
    EntityNew { entity_id: u64, name: Seq<char> },
    EntityPos { entity_id: u64, position: IVec3 },
    EntityDel { entity_id: u64 },
    PlayerList { playerlist: Seq<(u64, Seq<char>)> },
    ChunkNew { chunkpos: IVec3, voxel: Seq<u32> },
    ChunkDel { chunkpos: IVec3 },
}

/// The roster as the wire sees it: names as character sequences.
pub open spec fn roster_view(r: Seq<(u64, String)>) -> Seq<(u64, Seq<char>)> {
    r.map_values(|e: (u64, String)| (e.0, e.1@))
}

impl View for CPacket {
    type V = CPacketV;

    open spec fn view(&self) -> CPacketV {
        match self {
            CPacket::Handshake { protocol_version } => CPacketV::Handshake {
                protocol_version: *protocol_version,
            },
            CPacket::ServerQuery => CPacketV::ServerQuery,
            CPacket::Ping { client_time } => CPacketV::Ping { client_time: *client_time },
            CPacket::Login { uuid, access_token, username } => CPacketV::Login {
                uuid: *uuid,
                access_token: *access_token,
                username: username@,
            },
            CPacket::ChatMessage { message } => CPacketV::ChatMessage { message: message@ },
        }
    }
}

impl View for SPacket {
    type V = SPacketV;

    open spec fn view(&self) -> SPacketV {
        match self {
            SPacket::Disconnect { reason } => SPacketV::Disconnect { reason: reason@ },
            SPacket::ServerInfo { motd, num_players_limit, num_players_online, protocol_version, favicon } => SPacketV::ServerInfo {
                motd: motd@,
                num_players_limit: *num_players_limit,
                num_players_online: *num_players_online,
                protocol_version: *protocol_version,
                favicon: favicon@,
            },
            SPacket::Pong { client_time, server_time } => SPacketV::Pong {
                client_time: *client_time,
                server_time: *server_time,
            },
            SPacket::LoginSuccess => SPacketV::LoginSuccess,
            SPacket::Chat { message } => SPacketV::Chat { message: message@ },
            SPacket::EntityNew { entity_id, name } => SPacketV::EntityNew {
                entity_id: *entity_id,
                name: name@,
            },
            SPacket::EntityPos { entity_id, position } => SPacketV::EntityPos {
                entity_id: *entity_id,
                position: *position,
            },
            SPacket::EntityDel { entity_id } => SPacketV::EntityDel { entity_id: *entity_id },
            SPacket::PlayerList { playerlist } => SPacketV::PlayerList {
                playerlist: roster_view(playerlist@),
            },
            SPacket::ChunkNew { chunkpos, voxel } => SPacketV::ChunkNew {
                chunkpos: *chunkpos,
                voxel: voxel@,
            },
            SPacket::ChunkDel { chunkpos } => SPacketV::ChunkDel { chunkpos: *chunkpos },
        }
    }
}

/// The wire format counts characters with a 32-bit length prefix.
pub const MAX_TEXT_LEN: u64 = 0xFFFF_FFFF;

impl CPacketV {
    /// What fits on the wire: every text within the 32-bit count.
    pub open spec fn wf(self) -> bool {
        match self {
            CPacketV::Login { username, .. } => username.len() <= MAX_TEXT_LEN,
            CPacketV::ChatMessage { message } => message.len() <= MAX_TEXT_LEN,
            _ => true,
        }
    }
}

impl SPacketV {
    /// What fits on the wire: texts and the roster within the 32-bit count,
    /// and a chunk payload of exactly one chunk's cells.
    pub open spec fn wf(self) -> bool {
        match self {
            SPacketV::Disconnect { reason } => reason.len() <= MAX_TEXT_LEN,
            SPacketV::ServerInfo { motd, favicon, .. } => motd.len() <= MAX_TEXT_LEN
                && favicon.len() <= MAX_TEXT_LEN,
            SPacketV::Chat { message } => message.len() <= MAX_TEXT_LEN,
            SPacketV::EntityNew { name, .. } => name.len() <= MAX_TEXT_LEN,
            SPacketV::PlayerList { playerlist } => playerlist.len() <= MAX_TEXT_LEN && forall|
                i: int,
            |
                0 <= i < playerlist.len() ==> (#[trigger] playerlist[i]).1.len() <= MAX_TEXT_LEN,
            SPacketV::ChunkNew { voxel, .. } => voxel.len() == VOLUME,
            _ => true,
        }
    }
}

} // verus!
