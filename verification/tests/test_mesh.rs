use pumpkin_cluster::identity::ServerId;
use pumpkin_cluster::mesh::{
    MeshConfig, PinnedPeer, cert_fingerprint_sha256, peer_authorized, peer_by_cert, peer_by_id,
};

fn pinned_for(cert: &[u8]) -> PinnedPeer {
    PinnedPeer {
        server: ServerId(2),
        addr: String::from("203.0.113.7:24577"),
        pubkey_sha256: cert_fingerprint_sha256(cert),
    }
}

#[test]
fn fingerprint_is_stable() {
    assert_eq!(
        cert_fingerprint_sha256(b"cert"),
        cert_fingerprint_sha256(b"cert")
    );
}

#[test]
fn authorizes_pinned_cert_only() {
    let pinned = pinned_for(b"cert-a");
    assert!(peer_authorized(b"cert-a", &pinned));
    assert!(!peer_authorized(b"cert-b", &pinned));
}

fn mesh_with(peer: PinnedPeer) -> MeshConfig {
    MeshConfig {
        server: ServerId(1),
        bind_addr: String::from("127.0.0.1:0"),
        cert_path: String::from("cert.der"),
        key_path: String::from("key.der"),
        peers: vec![peer],
    }
}

#[test]
fn finds_peers_by_id_and_cert() {
    let peer = pinned_for(b"cert-a");
    let mesh = mesh_with(peer);
    assert_eq!(
        peer_by_id(&mesh, ServerId(2)),
        Some(&mesh.peers[0])
    );
    assert_eq!(peer_by_id(&mesh, ServerId(9)), None);
    assert_eq!(
        peer_by_cert(&mesh.peers, b"cert-a"),
        Some(&mesh.peers[0])
    );
    assert_eq!(peer_by_cert(&mesh.peers, b"cert-b"), None);
}
