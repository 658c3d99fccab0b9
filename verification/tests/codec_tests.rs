//! The wire codec: round trips for every variant, exact byte layouts, and
//! the rejection of malformed bytes.

use voxsync::codec::{decode_cpacket, decode_spacket, encode_cpacket, encode_spacket};
use voxsync::coords::{IVec3, VOLUME};
use voxsync::packet::{CPacket, SPacket};

fn round_c(m: CPacket) {
    let bytes = encode_cpacket(&m).expect("encodable");
    assert_eq!(decode_cpacket(&bytes), Some(m));
}

fn round_s(m: SPacket) {
    let bytes = encode_spacket(&m).expect("encodable");
    assert_eq!(decode_spacket(&bytes), Some(m));
}

#[test]
fn request_messages_round_trip() {
    round_c(CPacket::Handshake { protocol_version: 1 });
    round_c(CPacket::ServerQuery);
    round_c(CPacket::Ping { client_time: 123456789 });
    round_c(CPacket::Login {
        uuid: 5,
        access_token: 0xDEADBEEF,
        username: "Steve".to_string(),
    });
    round_c(CPacket::ChatMessage { message: "hello, world".to_string() });
}

#[test]
fn event_messages_round_trip() {
    round_s(SPacket::Disconnect { reason: "bye".to_string() });
    round_s(SPacket::ServerInfo {
        motd: "Motd".to_string(),
        num_players_limit: 64,
        num_players_online: 3,
        protocol_version: 1,
        favicon: "None".to_string(),
    });
    round_s(SPacket::Pong { client_time: 11, server_time: 22 });
    round_s(SPacket::LoginSuccess);
    round_s(SPacket::Chat { message: "hi".to_string() });
    round_s(SPacket::EntityNew { entity_id: 7, name: "Alex".to_string() });
    round_s(SPacket::EntityPos { entity_id: 7, position: IVec3::new(-5, 80, 12) });
    round_s(SPacket::EntityDel { entity_id: 7 });
    round_s(SPacket::PlayerList {
        playerlist: vec![(1, "a".to_string()), (2, "b".to_string())],
    });
    round_s(SPacket::ChunkNew { chunkpos: IVec3::new(32, 0, -32), voxel: vec![3u32; VOLUME] });
    round_s(SPacket::ChunkDel { chunkpos: IVec3::new(32, 0, -32) });
}

#[test]
fn unicode_text_round_trips() {
    round_c(CPacket::ChatMessage { message: "héllo → 世界 🌍".to_string() });
    round_s(SPacket::EntityNew { entity_id: 1, name: "Żółć".to_string() });
}

#[test]
fn empty_text_round_trips() {
    round_c(CPacket::ChatMessage { message: String::new() });
    round_s(SPacket::PlayerList { playerlist: vec![] });
}

#[test]
fn exact_bytes_of_fixed_messages() {
    // tag, then fixed-width little-endian fields
    let ping = encode_cpacket(&CPacket::Ping { client_time: 2 }).unwrap();
    assert_eq!(ping, vec![2u8, 2, 0, 0, 0, 0, 0, 0, 0]);
    let del = encode_spacket(&SPacket::EntityDel { entity_id: 7 }).unwrap();
    assert_eq!(del, vec![7u8, 7, 0, 0, 0, 0, 0, 0, 0]);
    let query = encode_cpacket(&CPacket::ServerQuery).unwrap();
    assert_eq!(query, vec![1u8]);
    // text is a character count then one 32-bit scalar per character
    let chat = encode_spacket(&SPacket::Chat { message: "A".to_string() }).unwrap();
    assert_eq!(chat, vec![4u8, 1, 0, 0, 0, 65, 0, 0, 0]);
    // a signed component travels as its two's-complement bits
    let pos = encode_spacket(&SPacket::EntityPos {
        entity_id: 1,
        position: IVec3::new(-1, 0, 0),
    })
    .unwrap();
    assert_eq!(
        pos,
        vec![6u8, 1, 0, 0, 0, 0, 0, 0, 0, 255, 255, 255, 255, 0, 0, 0, 0, 0, 0, 0, 0]
    );
}

#[test]
fn malformed_bytes_decode_to_nothing() {
    // empty input
    assert_eq!(decode_cpacket(&vec![]), None);
    assert_eq!(decode_spacket(&vec![]), None);
    // unknown tag
    assert_eq!(decode_cpacket(&vec![99u8]), None);
    assert_eq!(decode_spacket(&vec![99u8]), None);
    // truncated fields
    assert_eq!(decode_cpacket(&vec![2u8, 1, 0]), None);
    assert_eq!(decode_spacket(&vec![7u8, 1, 0, 0]), None);
    // a character count pointing past the end
    assert_eq!(decode_spacket(&vec![4u8, 2, 0, 0, 0, 65, 0, 0, 0]), None);
    // trailing garbage after a complete message
    assert_eq!(decode_cpacket(&vec![1u8, 0]), None);
    let mut ok = encode_spacket(&SPacket::LoginSuccess).unwrap();
    ok.push(0);
    assert_eq!(decode_spacket(&ok), None);
}

/// A surrogate value is not a character, so text carrying one is rejected
/// rather than smuggled into a `String`.
#[test]
fn surrogate_scalar_is_rejected() {
    // tag 4 (chat), one character, value 0xD800
    let bytes = vec![4u8, 1, 0, 0, 0, 0x00, 0xD8, 0, 0];
    assert_eq!(decode_spacket(&bytes), None);
    // the same layout with a valid scalar decodes
    let bytes = vec![4u8, 1, 0, 0, 0, 0x41, 0x00, 0, 0];
    assert_eq!(decode_spacket(&bytes), Some(SPacket::Chat { message: "A".to_string() }));
}

/// A chunk payload must be exactly one chunk's cells.
#[test]
fn short_chunk_payload_is_rejected() {
    let good = encode_spacket(&SPacket::ChunkNew {
        chunkpos: IVec3::new(0, 0, 0),
        voxel: vec![0u32; VOLUME],
    })
    .unwrap();
    assert!(decode_spacket(&good).is_some());
    let mut short = good.clone();
    short.truncate(good.len() - 4);
    assert_eq!(decode_spacket(&short), None);
    // a payload of the wrong length has no encoding at all
    assert_eq!(
        encode_spacket(&SPacket::ChunkNew { chunkpos: IVec3::new(0, 0, 0), voxel: vec![0u32; 3] }),
        None
    );
}

/// Decoding is the inverse of encoding byte for byte: re-encoding a decoded
/// message reproduces the input exactly.
#[test]
fn reencoding_reproduces_the_bytes() {
    let bytes = encode_spacket(&SPacket::PlayerList {
        playerlist: vec![(9, "zed".to_string())],
    })
    .unwrap();
    let m = decode_spacket(&bytes).unwrap();
    assert_eq!(encode_spacket(&m).unwrap(), bytes);
    let bytes = encode_cpacket(&CPacket::Login {
        uuid: 1,
        access_token: 2,
        username: "x".to_string(),
    })
    .unwrap();
    let m = decode_cpacket(&bytes).unwrap();
    assert_eq!(encode_cpacket(&m).unwrap(), bytes);
}
