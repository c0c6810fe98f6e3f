use client::block::BlockInstance;
use client::chunk::Chunk;
use client::player::{chunk_keys_in_range, colliding_blocks, range_chunk_count, ClientPacket, GameProtocol, PlayerGameMode};
use client::world::World;

#[test]
fn chunk_keys_come_x_then_y_then_z() {
    let keys = chunk_keys_in_range([0, 1, -1, -1, 5, 6]);
    assert_eq!(keys, vec![(0, -1, 5), (0, -1, 6), (1, -1, 5), (1, -1, 6)]);
    assert!(chunk_keys_in_range([1, 0, 0, 0, 0, 0]).is_empty());
    assert_eq!(chunk_keys_in_range([i32::MAX, i32::MAX, 0, 0, 0, 0]), vec![(i32::MAX, 0, 0)]);
}

#[test]
fn rendered_chunks_are_the_loaded_ones_of_the_box() {
    let mut w = World::new(0);
    w.set_chunk(0, 0, 0, Chunk::filled(0, 0, 0, BlockInstance::air()));
    w.set_chunk(1, 0, 0, Chunk::filled(1, 0, 0, BlockInstance::air()));
    w.set_chunk(5, 0, 0, Chunk::filled(5, 0, 0, BlockInstance::air()));
    let chunks = w.get_player_rendered_chunks([0, 2, 0, 0, 0, 0]);
    assert_eq!(chunks.iter().map(|c| c.x).collect::<Vec<_>>(), vec![0, 1]);
}

#[test]
fn bodies_collide_with_solid_and_unloaded_blocks() {
    let mut w = World::new(0);
    assert!(colliding_blocks(&w, (0, 0, 0), (1, 1, 1)).is_empty());
    w.set_chunk(0, 0, 0, Chunk::filled(0, 0, 0, BlockInstance::air()));
    w.set_block(1, 1, 1, BlockInstance::new(1));
    assert_eq!(colliding_blocks(&w, (0, 0, 0), (1, 1, 1)), vec![(1, 1, 1)]);
    assert_eq!(colliding_blocks(&w, (15, 0, 0), (16, 0, 0)), vec![(16, 0, 0)]);
    assert!(colliding_blocks(&w, (2, 0, 0), (1, 0, 0)).is_empty());
}

#[test]
fn the_protocol_remembers_the_player() {
    let p = GameProtocol::new(77);
    assert_eq!(p.player_id, 77);
    assert_eq!(p.player_id(), 77);
}

#[test]
fn switching_the_game_mode_toggles_it() {
    assert_eq!(PlayerGameMode::Spectator.switched(), PlayerGameMode::Survival);
    assert_eq!(PlayerGameMode::Survival.switched(), PlayerGameMode::Spectator);
    assert_eq!(PlayerGameMode::Survival.switched().switched(), PlayerGameMode::Survival);
}

#[test]
fn a_range_counts_every_chunk_of_the_box() {
    assert_eq!(range_chunk_count([0, 2, 0, 2, 0, 2]), 27);
    assert_eq!(range_chunk_count([-2, 2, -1, 1, -2, 2]), 5 * 3 * 5);
    assert_eq!(range_chunk_count([0, 0, 0, 5, 0, 5]), 36);
    assert_eq!(range_chunk_count([2, 0, 0, 1, 0, 1]), 0);
    assert_eq!(range_chunk_count([2, 0, 1, 0, 0, 3]), 0);
    for r in [[0, 2, 0, 2, 0, 2], [-3, 1, 4, 4, 0, 2], [1, 0, 0, 3, 0, 3]] {
        assert_eq!(range_chunk_count(r) as usize, chunk_keys_in_range(r).len());
    }
}

#[test]
fn protocol_packets_carry_the_player_and_the_stamps() {
    let p = GameProtocol::new(42);
    assert_eq!(p.create_ping(7), ClientPacket::Ping { timestamp: 7 });
    assert_eq!(p.create_pong(9), ClientPacket::Pong { timestamp: 9 });
    assert_eq!(
        p.create_gamemode_change(PlayerGameMode::Spectator),
        ClientPacket::GamemodeChange { player_id: 42, gamemode: PlayerGameMode::Spectator }
    );
}
