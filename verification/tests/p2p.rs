use banana::digest::blake3_hex;
use banana::{ChunkManifest, P2PNode, P2PSwarmManager, PeerDescriptor};

#[test]
fn test_chunk_manifest_creation_and_verification() {
    let data = b"hello banana p2p swarm test payload";
    let hash = blake3::hash(data).to_hex().to_string();
    let manifest = ChunkManifest::create_from_bytes(&hash, data, 8);

    assert_eq!(manifest.artifact_hash, hash);
    assert!(!manifest.chunks.is_empty());

    let chunk0_data = &data[0..8];
    assert!(manifest.verify_chunk(0, chunk0_data));
    assert!(!manifest.verify_chunk(0, b"wrongdat"));
}

#[test]
fn test_p2p_swarm_peer_discovery() {
    let addr = "127.0.0.1:8080".to_string();
    let mut node = P2PNode::new("node-alpha".to_string(), addr);
    node.store_artifact("hash-123", b"artifact payload".to_vec());

    let mut manager = P2PSwarmManager::new(node);
    assert_eq!(manager.peer_count(), 0);

    let peer_addr = "127.0.0.1:8081".to_string();
    let peer = PeerDescriptor {
        node_id: "node-beta".to_string(),
        addr: peer_addr,
        available_artifacts: vec!["hash-456".to_string(), "hash-123".to_string()],
        latency_ms: 5,
    };

    manager.register_peer(peer);
    assert_eq!(manager.peer_count(), 1);

    let found = manager.find_peers_with_artifact("hash-123");
    assert_eq!(found.len(), 1);
    assert_eq!(found[0].node_id, "node-beta");
}

#[test]
fn chunks_tile_the_artifact() {
    let data: Vec<u8> = (0u8..35).collect();
    let m = ChunkManifest::create_from_bytes("h", &data, 8);
    assert_eq!(m.total_bytes, 35);
    assert_eq!(m.chunk_size, 8);
    assert_eq!(m.chunks.len(), 5);
    for (i, c) in m.chunks.iter().enumerate() {
        assert_eq!(c.index as usize, i);
        assert_eq!(c.offset as usize, i * 8);
        let end = (c.offset as usize + c.size).min(35);
        assert_eq!(c.size, end - c.offset as usize);
        assert_eq!(c.checksum, blake3_hex(&data[c.offset as usize..end]));
        assert!(m.verify_chunk(i, &data[c.offset as usize..end]));
    }
    assert_eq!(m.chunks[4].size, 3);
    assert!(!m.verify_chunk(5, &data[0..3]));
    assert!(!m.verify_chunk(4, &data[0..8]));
}

#[test]
fn zero_chunk_size_means_one_mebibyte() {
    let data = vec![7u8; 1048576 + 10];
    let m = ChunkManifest::create_from_bytes("big", &data, 0);
    assert_eq!(m.chunk_size, 1048576);
    assert_eq!(m.chunks.len(), 2);
    assert_eq!(m.chunks[0].size, 1048576);
    assert_eq!(m.chunks[1].offset, 1048576);
    assert_eq!(m.chunks[1].size, 10);
}

#[test]
fn empty_artifact_has_no_chunks() {
    let m = ChunkManifest::create_from_bytes("e", b"", 8);
    assert!(m.chunks.is_empty());
    assert_eq!(m.total_bytes, 0);
    assert!(!m.verify_chunk(0, b""));
}

#[test]
fn chunk_checksum_is_blake3_hex() {
    let m = ChunkManifest::create_from_bytes("x", b"abc", 8);
    assert_eq!(
        m.chunks[0].checksum,
        "6437b3ac38465133ffb63b75273a8db548c558465d79db03fd359c6cd5bd9d85"
    );
}

#[test]
fn read_after_store_and_overwrite() {
    let mut node = P2PNode::new("n".to_string(), "10.0.0.1:9000".to_string());
    assert_eq!(node.get_artifact("h1"), None);
    node.store_artifact("h1", vec![1, 2, 3]);
    node.store_artifact("h2", vec![4]);
    assert_eq!(node.get_artifact("h1"), Some(vec![1, 2, 3]));
    node.store_artifact("h1", vec![9]);
    assert_eq!(node.get_artifact("h1"), Some(vec![9]));
    assert_eq!(node.get_artifact("h2"), Some(vec![4]));
    let mut listed = node.list_artifacts();
    listed.sort();
    assert_eq!(listed, vec!["h1".to_string(), "h2".to_string()]);
}

fn peer(id: &str, artifacts: &[&str]) -> PeerDescriptor {
    PeerDescriptor {
        node_id: id.to_string(),
        addr: "127.0.0.1:7000".to_string(),
        available_artifacts: artifacts.iter().map(|a| a.to_string()).collect(),
        latency_ms: 1,
    }
}

#[test]
fn registering_an_id_again_replaces_the_peer() {
    let node = P2PNode::new("local".to_string(), "127.0.0.1:1".to_string());
    let mut manager = P2PSwarmManager::new(node);
    manager.register_peer(peer("a", &["x"]));
    manager.register_peer(peer("b", &["x", "y"]));
    manager.register_peer(peer("a", &["y"]));
    assert_eq!(manager.peer_count(), 2);
    let with_x: Vec<String> = manager.find_peers_with_artifact("x").into_iter().map(|p| p.node_id).collect();
    assert_eq!(with_x, vec!["b".to_string()]);
    let with_y: Vec<String> = manager.find_peers_with_artifact("y").into_iter().map(|p| p.node_id).collect();
    assert_eq!(with_y, vec!["a".to_string(), "b".to_string()]);
    assert!(manager.find_peers_with_artifact("z").is_empty());
}

#[test]
fn removed_peer_is_gone() {
    let node = P2PNode::new("local".to_string(), "127.0.0.1:1".to_string());
    let mut manager = P2PSwarmManager::new(node);
    manager.register_peer(peer("a", &["x"]));
    manager.register_peer(peer("b", &["x"]));
    let removed = manager.remove_peer("a");
    assert_eq!(removed.map(|p| p.node_id), Some("a".to_string()));
    assert_eq!(manager.peer_count(), 1);
    assert!(manager.remove_peer("a").is_none());
    assert_eq!(manager.peer_count(), 1);
    let found: Vec<String> = manager.find_peers_with_artifact("x").into_iter().map(|p| p.node_id).collect();
    assert_eq!(found, vec!["b".to_string()]);
}

#[test]
fn sync_serves_only_local_artifacts() {
    let mut node = P2PNode::new("local".to_string(), "127.0.0.1:1".to_string());
    node.store_artifact("mine", b"data".to_vec());
    let mut manager = P2PSwarmManager::new(node);
    manager.register_peer(peer("remote", &["theirs"]));
    assert_eq!(manager.sync_artifact_from_swarm("mine", 4), Some(b"data".to_vec()));
    assert_eq!(manager.sync_artifact_from_swarm("theirs", 4), None);
    assert_eq!(manager.get_local_node().id, "local");
}

#[test]
fn zero_chunk_size_gives_the_one_mebibyte_manifest() {
    let data = vec![3u8; 1048576 * 2 + 5];
    assert_eq!(
        ChunkManifest::create_from_bytes("h", &data, 0),
        ChunkManifest::create_from_bytes("h", &data, 1048576)
    );
    assert_eq!(
        ChunkManifest::create_from_bytes("h", b"", 0),
        ChunkManifest::create_from_bytes("h", b"", 1048576)
    );
}

#[test]
fn peer_count_follows_registrations_and_removals() {
    let node = P2PNode::new("local".to_string(), "127.0.0.1:1".to_string());
    let mut manager = P2PSwarmManager::new(node);
    manager.register_peer(peer("a", &[]));
    manager.register_peer(peer("b", &[]));
    manager.register_peer(peer("a", &["x"]));
    manager.remove_peer("b");
    manager.register_peer(peer("c", &[]));
    manager.remove_peer("zzz");
    assert_eq!(manager.peer_count(), 2);
    manager.register_peer(peer("b", &[]));
    assert_eq!(manager.peer_count(), 3);
}
