//! Trust in the mesh: every peer has a certificate of its own, and the others
//! pin its fingerprint at setup. Whoever shows another certificate is refused.

use vstd::prelude::*;
use crate::identity::ServerId;

verus! {

/// Most streams in one direction of a connection.
pub const MAX_UNI_STREAMS: u32 = 1_000_000;

/// A remote peer as it was pinned at setup.
#[derive(Debug, Clone, PartialEq, Eq)]
pub struct PinnedPeer {
    pub server: ServerId,
    /// Where to reach the peer.
    pub addr: String,
    /// SHA-256 of the public certificate in DER form.
    pub pubkey_sha256: [u8; 32],
}

/// The local end of the mesh.
#[derive(Debug, Clone)]
pub struct MeshConfig {
    pub server: ServerId,
    pub bind_addr: String,
    pub cert_path: String,
    pub key_path: String,
    pub peers: Vec<PinnedPeer>,
}

/// SHA-256 of some bytes.
pub uninterp spec fn sha256_digest(bytes: Seq<u8>) -> Seq<u8>;

/// Calls `Digest::digest` of `sha2::Sha256`. Claims that the 32 bytes it gives
/// are a function of the input alone.
#[verifier::external_body]
fn sha256_of(bytes: &[u8]) -> (digest: [u8; 32])
    ensures
        digest@ == sha256_digest(bytes@),
{
    <sha2::Sha256 as sha2::Digest>::digest(bytes).into()
}

/// The fingerprint of a certificate in DER form.
pub fn cert_fingerprint_sha256(cert_der: &[u8]) -> (f: [u8; 32])
    ensures
        f@ == sha256_digest(cert_der@),
{
    sha256_of(cert_der)
}

/// `peers[i]` is the first peer with the number `server`.
pub open spec fn first_with_id(peers: Seq<PinnedPeer>, server: ServerId, i: int) -> bool {
    &&& 0 <= i < peers.len()
    &&& peers[i].server == server
    &&& forall|j: int| 0 <= j < i ==> (#[trigger] peers[j]).server != server
}

/// The first pinned peer with a number.
pub fn peer_by_id(config: &MeshConfig, server: ServerId) -> (r: Option<&PinnedPeer>)
    ensures
        r is None <==> forall|i: int|
            0 <= i < config.peers@.len() ==> (#[trigger] config.peers@[i]).server != server,
        r matches Some(p) ==> exists|i: int| #[trigger]
            first_with_id(config.peers@, server, i) && *p == config.peers@[i],
{
    let mut i: usize = 0;
    while i < config.peers.len()
        invariant
            i <= config.peers@.len(),
            forall|j: int| 0 <= j < i ==> (#[trigger] config.peers@[j]).server != server,
        decreases config.peers@.len() - i,
    {
        if config.peers[i].server.0 == server.0 {
            proof {
                assert(first_with_id(config.peers@, server, i as int));
            }
            return Some(&config.peers[i]);
        }
        i = i + 1;
    }
    None
}

/// `fingerprint` is that of the first peer pinned to it.
pub open spec fn first_with_pin(peers: Seq<PinnedPeer>, fingerprint: Seq<u8>, i: int) -> bool {
    &&& 0 <= i < peers.len()
    &&& peers[i].pubkey_sha256@ == fingerprint
    &&& forall|j: int| 0 <= j < i ==> (#[trigger] peers[j]).pubkey_sha256@ != fingerprint
}

/// The first peer that is pinned to a fingerprint.
pub fn peer_by_fingerprint<'a>(peers: &'a [PinnedPeer], fingerprint: &[u8; 32]) -> (r: Option<
    &'a PinnedPeer,
>)
    ensures
        r is None <==> forall|i: int|
            0 <= i < peers@.len() ==> (#[trigger] peers@[i]).pubkey_sha256@ != fingerprint@,
        r matches Some(p) ==> exists|i: int| #[trigger]
            first_with_pin(peers@, fingerprint@, i) && *p == peers@[i],
{
    let mut i: usize = 0;
    while i < peers.len()
        invariant
            i <= peers@.len(),
            forall|j: int|
                0 <= j < i ==> (#[trigger] peers@[j]).pubkey_sha256@ != fingerprint@,
        decreases peers@.len() - i,
    {
        if same_fingerprint(fingerprint, &peers[i].pubkey_sha256) {
            proof {
                assert(first_with_pin(peers@, fingerprint@, i as int));
            }
            return Some(&peers[i]);
        }
        i = i + 1;
    }
    None
}

/// The first peer that is pinned to the certificate.
pub fn peer_by_cert<'a>(peers: &'a [PinnedPeer], cert_der: &[u8]) -> (r: Option<&'a PinnedPeer>)
    ensures
        r is None <==> forall|i: int|
            0 <= i < peers@.len() ==> (#[trigger] peers@[i]).pubkey_sha256@ != sha256_digest(
                cert_der@,
            ),
        r matches Some(p) ==> exists|i: int| #[trigger]
            first_with_pin(peers@, sha256_digest(cert_der@), i) && *p == peers@[i],
{
    let fingerprint = cert_fingerprint_sha256(cert_der);
    peer_by_fingerprint(peers, &fingerprint)
}

/// Whether two fingerprints are the same.
pub fn same_fingerprint(a: &[u8; 32], b: &[u8; 32]) -> (r: bool)
    ensures
        r == (a@ == b@),
{
    let mut i: usize = 0;
    while i < 32
        invariant
            i <= 32,
            forall|j: int| 0 <= j < i ==> a@[j] == b@[j],
        decreases 32 - i,
    {
        if a[i] != b[i] {
            return false;
        }
        i = i + 1;
    }
    assert(a@ =~= b@);
    true
}

/// Whether a peer that shows this certificate is the pinned one.
pub fn peer_authorized(cert_der: &[u8], pinned: &PinnedPeer) -> (b: bool)
    ensures
        b == (sha256_digest(cert_der@) == pinned.pubkey_sha256@),
{
    let fingerprint = cert_fingerprint_sha256(cert_der);
    same_fingerprint(&fingerprint, &pinned.pubkey_sha256)
}

/// The first peer with a number, or with a pin, is the only first one, and stands
/// before every other.
pub proof fn lemma_first_peer_is_unique(
    peers: Seq<PinnedPeer>,
    server: ServerId,
    pin: Seq<u8>,
    i: int,
    j: int,
)
    ensures
        first_with_id(peers, server, i) ==> 0 <= i < peers.len() && peers[i].server == server,
        first_with_id(peers, server, i) && 0 <= j < peers.len() && peers[j].server == server ==> i
            <= j,
        first_with_pin(peers, pin, i) ==> 0 <= i < peers.len() && peers[i].pubkey_sha256@ == pin,
        first_with_pin(peers, pin, i) && 0 <= j < peers.len() && peers[j].pubkey_sha256@ == pin
            ==> i <= j,
{
}

} // verus!
